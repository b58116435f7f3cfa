use vstd::prelude::*;
use vstd::multiset::Multiset;

verus! {

broadcast use vstd::multiset::group_multiset_axioms;

/// One selectable unit of the blocking search: besides a value, a weight
/// and the selection flag it carries a stable identity, the identity of an
/// excluded item that dominates it (if any), and the identities of the
/// items it dominates.
pub struct Item {
    pub id: i32,
    pub value: i32,
    pub weight: i32,
    pub is_selected: bool,
    pub blocked_by: Option<i32>,
    pub block_list: Vec<i32>,
}

/// The mathematical image of an item, with the dominance list as a sequence.
#[verifier::ext_equal]
pub ghost struct ItemView {
    pub id: i32,
    pub value: i32,
    pub weight: i32,
    pub is_selected: bool,
    pub blocked_by: Option<i32>,
    pub block_list: Seq<i32>,
}

/// The mathematical image of one item.
pub open spec fn item_view(it: Item) -> ItemView {
    ItemView {
        id: it.id,
        value: it.value,
        weight: it.weight,
        is_selected: it.is_selected,
        blocked_by: it.blocked_by,
        block_list: it.block_list@,
    }
}

/// The mathematical image of an item collection.
pub open spec fn views(s: Seq<Item>) -> Seq<ItemView> {
    s.map_values(|it: Item| item_view(it))
}

/// An item is well formed when its value and weight are non-negative.
pub open spec fn item_ok(it: ItemView) -> bool {
    it.value >= 0 && it.weight >= 0
}

/// Every item of the collection is well formed.
pub open spec fn wf_items(s: Seq<ItemView>) -> bool {
    forall|i: int| 0 <= i < s.len() ==> #[trigger] item_ok(s[i])
}

/// Identities agree with positions.
pub open spec fn wf_ids(s: Seq<ItemView>) -> bool {
    forall|i: int| 0 <= i < s.len() ==> (#[trigger] s[i]).id as int == i
}

/// Sum of the values of all items.
pub open spec fn value_all(s: Seq<ItemView>) -> int
    decreases s.len(),
{
    if s.len() == 0 {
        0
    } else {
        s[0].value + value_all(s.skip(1))
    }
}

/// Sum of the weights of all items.
pub open spec fn weight_all(s: Seq<ItemView>) -> int
    decreases s.len(),
{
    if s.len() == 0 {
        0
    } else {
        s[0].weight + weight_all(s.skip(1))
    }
}

/// What a selected item contributes to the selected-value sum.
pub open spec fn value_contrib(it: ItemView) -> int {
    if it.is_selected {
        it.value as int
    } else {
        0
    }
}

/// What a selected item contributes to the selected-weight sum.
pub open spec fn weight_contrib(it: ItemView) -> int {
    if it.is_selected {
        it.weight as int
    } else {
        0
    }
}

/// Sum of the values of the selected items.
pub open spec fn value_sel(s: Seq<ItemView>) -> int
    decreases s.len(),
{
    if s.len() == 0 {
        0
    } else {
        value_contrib(s[0]) + value_sel(s.skip(1))
    }
}

/// Sum of the weights of the selected items.
pub open spec fn weight_sel(s: Seq<ItemView>) -> int
    decreases s.len(),
{
    if s.len() == 0 {
        0
    } else {
        weight_contrib(s[0]) + weight_sel(s.skip(1))
    }
}

/// Value of a candidate solution: the selected value when the selected
/// weight fits the budget, and the sentinel -1 otherwise.
pub open spec fn solution_value_spec(s: Seq<ItemView>, allowed_weight: int) -> int {
    if weight_sel(s) > allowed_weight {
        -1
    } else {
        value_sel(s)
    }
}

/// An item dominates another when it is never worse in value and never
/// heavier; ties in both make the two items dominate each other.
pub open spec fn can_block_spec(a: ItemView, b: ItemView) -> bool {
    a.value >= b.value && a.weight <= b.weight
}

/// Identities of the items among the first `j` that item `i` dominates,
/// in position order.
pub open spec fn block_ids_upto(s: Seq<ItemView>, i: int, j: int) -> Seq<i32>
    decreases j,
{
    if j <= 0 {
        Seq::empty()
    } else if j - 1 != i && can_block_spec(s[i], s[j - 1]) {
        block_ids_upto(s, i, j - 1).push(s[j - 1].id)
    } else {
        block_ids_upto(s, i, j - 1)
    }
}

/// Identities of every item that item `i` dominates.
pub open spec fn block_ids(s: Seq<ItemView>, i: int) -> Seq<i32> {
    block_ids_upto(s, i, s.len() as int)
}

/// The same collection with every dominance list recomputed.
pub open spec fn with_lists(s: Seq<ItemView>) -> Seq<ItemView> {
    Seq::new(
        s.len(),
        |k: int|
            ItemView {
                id: s[k].id,
                value: s[k].value,
                weight: s[k].weight,
                is_selected: s[k].is_selected,
                blocked_by: s[k].blocked_by,
                block_list: block_ids(s, k),
            },
    )
}

/// The collection as it is copied for the exclude branch at position `idx`:
/// that item is deselected, and every not-yet-blocked item whose position
/// stands in its dominance list is marked blocked by its identity.
pub open spec fn apply_block(s: Seq<ItemView>, idx: int) -> Seq<ItemView> {
    Seq::new(
        s.len(),
        |j: int|
            if j == idx {
                ItemView {
                    id: s[j].id,
                    value: s[j].value,
                    weight: s[j].weight,
                    is_selected: false,
                    blocked_by: s[j].blocked_by,
                    block_list: s[j].block_list,
                }
            } else if s[idx].block_list.contains(j as i32) && s[j].blocked_by is None {
                ItemView {
                    id: s[j].id,
                    value: s[j].value,
                    weight: s[j].weight,
                    is_selected: s[j].is_selected,
                    blocked_by: Some(s[idx].id),
                    block_list: s[j].block_list,
                }
            } else {
                s[j]
            },
    )
}

/// Two collections hold the same identities, values, weights and dominance
/// lists position by position.
pub open spec fn same_base(a: Seq<ItemView>, b: Seq<ItemView>) -> bool {
    &&& a.len() == b.len()
    &&& forall|i: int|
        0 <= i < a.len() ==> (#[trigger] a[i]).value == b[i].value && a[i].weight == b[i].weight
            && a[i].id == b[i].id && a[i].block_list == b[i].block_list
}

/// No item at or beyond position `i` is selected.
pub open spec fn unselected_from(s: Seq<ItemView>, i: int) -> bool {
    forall|j: int| i <= j < s.len() ==> !(#[trigger] s[j]).is_selected
}

/// Powers of two, used to bound the number of recursive calls.
pub open spec fn two_to(n: nat) -> nat
    decreases n,
{
    if n == 0 {
        1
    } else {
        2 * two_to((n - 1) as nat)
    }
}

/// One step of the sum definitions, read at an arbitrary suffix.
pub proof fn lemma_sums_skip(s: Seq<ItemView>, i: int)
    requires
        0 <= i < s.len(),
    ensures
        value_all(s.skip(i)) == s[i].value + value_all(s.skip(i + 1)),
        weight_all(s.skip(i)) == s[i].weight + weight_all(s.skip(i + 1)),
        value_sel(s.skip(i)) == value_contrib(s[i]) + value_sel(s.skip(i + 1)),
        weight_sel(s.skip(i)) == weight_contrib(s[i]) + weight_sel(s.skip(i + 1)),
{
    assert(s.skip(i).skip(1) =~= s.skip(i + 1));
    assert(s.skip(i)[0] == s[i]);
}

/// The suffix of a well-formed collection is well formed.
pub proof fn lemma_wf_skip(s: Seq<ItemView>, i: int)
    requires
        wf_items(s),
        0 <= i <= s.len(),
    ensures
        wf_items(s.skip(i)),
{
    assert forall|j: int| 0 <= j < s.skip(i).len() implies #[trigger] item_ok(s.skip(i)[j]) by {
        assert(s.skip(i)[j] == s[i + j]);
        assert(item_ok(s[i + j]));
    }
}

/// All four sums are non-negative, and each selected sum is bounded by the
/// matching sum over all items.
pub proof fn lemma_sums_nonneg(s: Seq<ItemView>)
    requires
        wf_items(s),
    ensures
        value_all(s) >= 0,
        weight_all(s) >= 0,
        0 <= value_sel(s) <= value_all(s),
        0 <= weight_sel(s) <= weight_all(s),
    decreases s.len(),
{
    if s.len() > 0 {
        assert(item_ok(s[0]));
        lemma_wf_skip(s, 1);
        lemma_sums_nonneg(s.skip(1));
    }
}

/// How each sum changes when one item is replaced.
pub proof fn lemma_sums_update(s: Seq<ItemView>, i: int, x: ItemView)
    requires
        0 <= i < s.len(),
    ensures
        value_all(s.update(i, x)) == value_all(s) - s[i].value + x.value,
        weight_all(s.update(i, x)) == weight_all(s) - s[i].weight + x.weight,
        value_sel(s.update(i, x)) == value_sel(s) - value_contrib(s[i]) + value_contrib(x),
        weight_sel(s.update(i, x)) == weight_sel(s) - weight_contrib(s[i]) + weight_contrib(x),
    decreases s.len(),
{
    let u = s.update(i, x);
    if i == 0 {
        assert(u[0] == x);
        assert(u.skip(1) =~= s.skip(1));
    } else {
        assert(u[0] == s[0]);
        assert(u.skip(1) =~= s.skip(1).update(i - 1, x));
        lemma_sums_update(s.skip(1), i - 1, x);
        assert(s.skip(1)[i - 1] == s[i]);
    }
}

/// Collections that agree on values, weights and selection flags have the
/// same sums, whatever their other fields do.
pub proof fn lemma_sums_congruent(a: Seq<ItemView>, b: Seq<ItemView>)
    requires
        a.len() == b.len(),
        forall|i: int|
            0 <= i < a.len() ==> (#[trigger] a[i]).value == b[i].value && a[i].weight
                == b[i].weight && a[i].is_selected == b[i].is_selected,
    ensures
        value_all(a) == value_all(b),
        weight_all(a) == weight_all(b),
        value_sel(a) == value_sel(b),
        weight_sel(a) == weight_sel(b),
    decreases a.len(),
{
    if a.len() > 0 {
        assert(a[0].value == b[0].value && a[0].weight == b[0].weight && a[0].is_selected
            == b[0].is_selected);
        assert forall|i: int|
            0 <= i < a.skip(1).len() implies (#[trigger] a.skip(1)[i]).value == b.skip(1)[i].value
            && a.skip(1)[i].weight == b.skip(1)[i].weight && a.skip(1)[i].is_selected
            == b.skip(1)[i].is_selected by {
            assert(a.skip(1)[i] == a[i + 1]);
            assert(b.skip(1)[i] == b[i + 1]);
        }
        lemma_sums_congruent(a.skip(1), b.skip(1));
    }
}

/// A collection with no selection at all sums to zero on the selected side.
pub proof fn lemma_unselected_zero(s: Seq<ItemView>)
    requires
        unselected_from(s, 0),
    ensures
        value_sel(s) == 0,
        weight_sel(s) == 0,
    decreases s.len(),
{
    if s.len() > 0 {
        assert(!s[0].is_selected);
        assert(unselected_from(s.skip(1), 0)) by {
            assert forall|j: int|
                0 <= j < s.skip(1).len() implies !(#[trigger] s.skip(1)[j]).is_selected by {
                assert(s.skip(1)[j] == s[j + 1]);
            }
        }
        lemma_unselected_zero(s.skip(1));
    }
}

/// When everything from position `i` on is still undecided, the committed
/// selection and the undecided suffix together stay within the full sums.
pub proof fn lemma_sel_prefix(s: Seq<ItemView>, i: int)
    requires
        wf_items(s),
        0 <= i <= s.len(),
        unselected_from(s, i),
    ensures
        value_sel(s) + value_all(s.skip(i)) <= value_all(s),
        weight_sel(s) + weight_all(s.skip(i)) <= weight_all(s),
    decreases i,
{
    if i == 0 {
        lemma_unselected_zero(s);
        assert(s.skip(0) =~= s);
    } else {
        assert(item_ok(s[0]));
        lemma_wf_skip(s, 1);
        assert(unselected_from(s.skip(1), i - 1)) by {
            assert forall|j: int|
                i - 1 <= j < s.skip(1).len() implies !(#[trigger] s.skip(1)[j]).is_selected by {
                assert(s.skip(1)[j] == s[j + 1]);
            }
        }
        lemma_sel_prefix(s.skip(1), i - 1);
        assert(s.skip(1).skip(i - 1) =~= s.skip(i));
    }
}

/// Powers of two are at least one.
pub proof fn lemma_two_to_pos(n: nat)
    ensures
        two_to(n) >= 1,
    decreases n,
{
    if n > 0 {
        lemma_two_to_pos((n - 1) as nat);
    }
}

/// Powers of two grow with the exponent.
pub proof fn lemma_two_to_le(a: nat, b: nat)
    requires
        a <= b,
    ensures
        two_to(a) <= two_to(b),
    decreases b,
{
    if a < b {
        lemma_two_to_le(a, (b - 1) as nat);
        lemma_two_to_pos((b - 1) as nat);
    }
}

/// Sixty-three doublings, spelled out so the call-count arithmetic of the
/// search stays within a signed 64-bit count.
pub proof fn lemma_two_to_63()
    ensures
        two_to(63nat) == 0x8000000000000000,
{
    assert(two_to(63nat) == 0x8000000000000000) by {
        reveal_with_fuel(two_to, 64);
    }
}

/// The result of one recursive step of the blocking search: the chosen
/// collection, its reported value, and the number of calls made. It follows
/// the plain recursion, except that a blocked item is never force-selected,
/// that excluding an item marks everything it dominates as blocked on that
/// branch's copy, and that when both branches are skipped the current
/// partial selection is returned rather than an empty one.
pub open spec fn rod_step(
    s: Seq<ItemView>,
    allowed_weight: int,
    idx: int,
    best: int,
    cur_v: int,
    cur_w: int,
    rem: int,
) -> (Seq<ItemView>, int, int)
    decreases s.len() - idx,
    when 0 <= idx
{
    if idx >= s.len() {
        (s, solution_value_spec(s, allowed_weight), 1)
    } else if cur_v + rem <= best {
        (s.map_values(|it: ItemView| ItemView { is_selected: false, ..it }), 0, 1)
    } else {
        let it = s[idx];
        let can_include = cur_w + it.weight <= allowed_weight && it.blocked_by is None;
        let can_exclude = cur_v + rem - it.value > best;
        let taken = ItemView { is_selected: true, ..it };
        let new_best = if cur_v + it.value > best {
            cur_v + it.value
        } else {
            best
        };
        let r1 = rod_step(
            s.update(idx, taken),
            allowed_weight,
            idx + 1,
            new_best,
            cur_v + it.value,
            cur_w + it.weight,
            rem - it.value,
        );
        let r2 = rod_step(
            apply_block(s, idx),
            allowed_weight,
            idx + 1,
            best,
            cur_v,
            cur_w,
            rem - it.value,
        );
        if can_include && can_exclude {
            if r1.1 > r2.1 {
                (r1.0, r1.1, r1.2 + r2.2 + 1)
            } else {
                (r2.0, r2.1, r1.2 + r2.2 + 1)
            }
        } else if can_include {
            (r1.0, r1.1, r1.2 + 1)
        } else if can_exclude {
            (r2.0, r2.1, r2.2 + 1)
        } else {
            (s, solution_value_spec(s, allowed_weight), 1)
        }
    }
}

/// Every step of the blocking search keeps the item data and dominance
/// lists, returns a feasible selection whose reported value is its own
/// solution value (hence non-negative), and makes between one and fewer
/// than 2^(n - idx + 1) calls.
pub proof fn lemma_rod_step_props(
    s: Seq<ItemView>,
    allowed_weight: int,
    idx: int,
    best: int,
    cur_v: int,
    cur_w: int,
    rem: int,
)
    requires
        wf_items(s),
        0 <= idx <= s.len(),
        allowed_weight >= 0,
        cur_v == value_sel(s),
        cur_w == weight_sel(s),
        rem == value_all(s.skip(idx)),
        unselected_from(s, idx),
        cur_w <= allowed_weight,
    ensures
        ({
            let r = rod_step(s, allowed_weight, idx, best, cur_v, cur_w, rem);
            &&& same_base(r.0, s)
            &&& wf_items(r.0)
            &&& weight_sel(r.0) <= allowed_weight
            &&& r.1 == value_sel(r.0)
            &&& r.1 == solution_value_spec(r.0, allowed_weight)
            &&& r.1 >= 0
            &&& 1 <= r.2 < two_to((s.len() - idx + 1) as nat)
        }),
    decreases s.len() - idx,
{
    lemma_sums_nonneg(s);
    lemma_wf_skip(s, idx);
    lemma_sums_nonneg(s.skip(idx));
    lemma_sel_prefix(s, idx);
    if idx >= s.len() {
        assert(two_to(0nat) == 1);
        assert(two_to(1nat) == 2);
        lemma_two_to_le(1nat, (s.len() - idx + 1) as nat);
        assert(weight_sel(s) <= allowed_weight);
        assert(same_base(s, s));
    } else if cur_v + rem <= best {
        let c = s.map_values(|it: ItemView| ItemView { is_selected: false, ..it });
        assert(c.len() == s.len());
        assert forall|i: int|
            0 <= i < c.len() implies (#[trigger] c[i]).value == s[i].value && c[i].weight
            == s[i].weight && c[i].id == s[i].id && c[i].block_list == s[i].block_list
            && !c[i].is_selected by {}
        assert(same_base(c, s));
        assert(unselected_from(c, 0));
        assert(wf_items(c)) by {
            assert forall|i: int| 0 <= i < c.len() implies #[trigger] item_ok(c[i]) by {
                assert(item_ok(s[i]));
            }
        }
        lemma_unselected_zero(c);
        assert(two_to(0nat) == 1);
        assert(two_to(1nat) == 2);
        lemma_two_to_le(1nat, (s.len() - idx + 1) as nat);
    } else {
        let it = s[idx];
        lemma_sums_skip(s, idx);
        lemma_wf_skip(s, idx + 1);
        lemma_sums_nonneg(s.skip(idx + 1));
        assert(!it.is_selected);
        let taken = ItemView { is_selected: true, ..it };
        let s1 = s.update(idx, taken);
        let s2 = apply_block(s, idx);
        lemma_sums_update(s, idx, taken);
        assert(s1.skip(idx + 1) =~= s.skip(idx + 1));
        // The exclude copy only touches selection at idx and blocked marks,
        // so its sums match those of a plain deselection there.
        assert(s2.len() == s.len());
        assert forall|j: int|
            0 <= j < s2.len() implies (#[trigger] s2[j]).value == s[j].value && s2[j].weight
            == s[j].weight && s2[j].id == s[j].id && s2[j].block_list == s[j].block_list
            && (j != idx ==> s2[j].is_selected == s[j].is_selected) && (j == idx
            ==> !s2[j].is_selected) by {}
        assert(value_sel(s2) == value_sel(s) && weight_sel(s2) == weight_sel(s) && value_all(s2)
            == value_all(s) && weight_all(s2) == weight_all(s)) by {
            assert forall|j: int|
                0 <= j < s2.len() implies (#[trigger] s2[j]).value == s[j].value && s2[j].weight
                == s[j].weight && s2[j].is_selected == s[j].is_selected by {
                if j == idx {
                    assert(!s[idx].is_selected);
                }
            }
            lemma_sums_congruent(s2, s);
        }
        assert(value_all(s2.skip(idx + 1)) == value_all(s.skip(idx + 1))) by {
            assert forall|j: int|
                0 <= j < s2.skip(idx + 1).len() implies (#[trigger] s2.skip(idx + 1)[j]).value
                == s.skip(idx + 1)[j].value && s2.skip(idx + 1)[j].weight
                == s.skip(idx + 1)[j].weight && s2.skip(idx + 1)[j].is_selected
                == s.skip(idx + 1)[j].is_selected by {
                assert(s2.skip(idx + 1)[j] == s2[idx + 1 + j]);
                assert(s.skip(idx + 1)[j] == s[idx + 1 + j]);
            }
            lemma_sums_congruent(s2.skip(idx + 1), s.skip(idx + 1));
        }
        assert(wf_items(s1) && wf_items(s2)) by {
            assert(item_ok(it));
            assert forall|j: int| 0 <= j < s1.len() implies #[trigger] item_ok(s1[j]) by {
                if j != idx {
                    assert(item_ok(s[j]));
                }
            }
            assert forall|j: int| 0 <= j < s2.len() implies #[trigger] item_ok(s2[j]) by {
                assert(item_ok(s[j]));
            }
        }
        assert(unselected_from(s1, idx + 1)) by {
            assert forall|j: int|
                idx + 1 <= j < s1.len() implies !(#[trigger] s1[j]).is_selected by {
                assert(s1[j] == s[j]);
            }
        }
        assert(unselected_from(s2, idx + 1)) by {
            assert forall|j: int|
                idx + 1 <= j < s2.len() implies !(#[trigger] s2[j]).is_selected by {
                assert(s2[j].is_selected == s[j].is_selected);
            }
        }
        let can_include = cur_w + it.weight <= allowed_weight && it.blocked_by is None;
        let can_exclude = cur_v + rem - it.value > best;
        let new_best = if cur_v + it.value > best {
            cur_v + it.value
        } else {
            best
        };
        if can_include {
            lemma_rod_step_props(
                s1,
                allowed_weight,
                idx + 1,
                new_best,
                cur_v + it.value,
                cur_w + it.weight,
                rem - it.value,
            );
        }
        lemma_rod_step_props(s2, allowed_weight, idx + 1, best, cur_v, cur_w, rem - it.value);
        let k = (s.len() - idx) as nat;
        assert(two_to(k + 1) == 2 * two_to(k));
        assert(two_to(k) >= 1) by {
            lemma_two_to_pos(k);
        }
        assert(s1.len() == s.len());
        assert(s2.len() == s.len());
        assert((s1.len() - (idx + 1) + 1) as nat == k);
        assert((s2.len() - (idx + 1) + 1) as nat == k);
        assert((s.len() - idx + 1) as nat == k + 1);
        let r1 = rod_step(
            s1,
            allowed_weight,
            idx + 1,
            new_best,
            cur_v + it.value,
            cur_w + it.weight,
            rem - it.value,
        );
        let r2 = rod_step(s2, allowed_weight, idx + 1, best, cur_v, cur_w, rem - it.value);
        if can_include {
            assert(same_base(r1.0, s)) by {
                assert forall|j: int|
                    0 <= j < r1.0.len() implies (#[trigger] r1.0[j]).value == s[j].value
                    && r1.0[j].weight == s[j].weight && r1.0[j].id == s[j].id
                    && r1.0[j].block_list == s[j].block_list by {
                    assert(r1.0[j].value == s1[j].value && r1.0[j].weight == s1[j].weight
                        && r1.0[j].id == s1[j].id && r1.0[j].block_list == s1[j].block_list);
                }
            }
        }
        assert(same_base(r2.0, s)) by {
            assert forall|j: int|
                0 <= j < r2.0.len() implies (#[trigger] r2.0[j]).value == s[j].value
                && r2.0[j].weight == s[j].weight && r2.0[j].id == s[j].id && r2.0[j].block_list
                == s[j].block_list by {
                assert(r2.0[j].value == s2[j].value && r2.0[j].weight == s2[j].weight
                    && r2.0[j].id == s2[j].id && r2.0[j].block_list == s2[j].block_list);
            }
        }
    }
}

impl Item {
    /// Whether this item dominates the other: never worse in value and
    /// never heavier.
    pub fn can_block(&self, other: &Item) -> (r: bool)
        ensures
            r == can_block_spec(item_view(*self), item_view(*other)),
    {
        self.value >= other.value && self.weight <= other.weight
    }

    /// Record the other item as this item's blocker, once: a blocker
    /// already present is kept.
    pub fn block(&mut self, other: &Item)
        ensures
            final(self).id == old(self).id,
            final(self).value == old(self).value,
            final(self).weight == old(self).weight,
            final(self).is_selected == old(self).is_selected,
            final(self).block_list == old(self).block_list,
            final(self).blocked_by == if old(self).blocked_by is None {
                Some(other.id)
            } else {
                old(self).blocked_by
            },
    {
        if self.blocked_by.is_none() {
            self.blocked_by = Some(other.id);
        }
    }
}

/// Plain copy of a list of identities.
fn copy_id_list(v: &Vec<i32>) -> (r: Vec<i32>)
    ensures
        r@ == v@,
{
    let mut out: Vec<i32> = Vec::with_capacity(v.len());
    let mut i: usize = 0;
    while i < v.len()
        invariant
            i <= v@.len(),
            out@ == v@.take(i as int),
        decreases v@.len() - i,
    {
        let x = v[i];
        out.push(x);
        proof {
            assert(v@.take(i + 1) =~= v@.take(i as int).push(v@[i as int]));
        }
        i += 1;
    }
    proof {
        assert(v@.take(v@.len() as int) =~= v@);
    }
    out
}

/// Field-for-field copy of one item.
fn copy_item(it: &Item) -> (r: Item)
    ensures
        item_view(r) == item_view(*it),
{
    let r = Item {
        id: it.id,
        value: it.value,
        weight: it.weight,
        is_selected: it.is_selected,
        blocked_by: match it.blocked_by {
            Some(id) => Some(id),
            None => None,
        },
        block_list: copy_id_list(&it.block_list),
    };
    proof {
        assert(item_view(r) =~= item_view(*it));
    }
    r
}

/// Build the item collection for a run from plain value/weight pairs:
/// identities follow positions, nothing is selected or blocked, and the
/// dominance lists start empty.
pub fn make_items(pairs: &Vec<(i32, i32)>) -> (r: Vec<Item>)
    requires
        forall|i: int| 0 <= i < pairs@.len() ==> (#[trigger] pairs@[i]).0 >= 0 && pairs@[i].1 >= 0,
        pairs@.len() <= i32::MAX,
    ensures
        r@.len() == pairs@.len(),
        forall|i: int|
            0 <= i < r@.len() ==> (#[trigger] views(r@)[i]).value == pairs@[i].0
                && views(r@)[i].weight == pairs@[i].1 && !views(r@)[i].is_selected
                && views(r@)[i].id as int == i && views(r@)[i].blocked_by is None
                && views(r@)[i].block_list == Seq::<i32>::empty(),
        wf_items(views(r@)),
        wf_ids(views(r@)),
        unselected_from(views(r@), 0),
{
    let mut items: Vec<Item> = Vec::with_capacity(pairs.len());
    let mut i: usize = 0;
    while i < pairs.len()
        invariant
            i <= pairs@.len(),
            pairs@.len() <= i32::MAX,
            items@.len() == i,
            forall|j: int| 0 <= j < pairs@.len() ==> (#[trigger] pairs@[j]).0 >= 0 && pairs@[j].1 >= 0,
            forall|j: int|
                0 <= j < i ==> item_view(#[trigger] items@[j]).value == pairs@[j].0
                    && item_view(items@[j]).weight == pairs@[j].1
                    && !item_view(items@[j]).is_selected && item_view(items@[j]).id as int == j
                    && item_view(items@[j]).blocked_by is None && item_view(items@[j]).block_list
                    == Seq::<i32>::empty(),
        decreases pairs@.len() - i,
    {
        let (v, w) = pairs[i];
        let it = Item {
            id: i as i32,
            value: v,
            weight: w,
            is_selected: false,
            blocked_by: None,
            block_list: Vec::new(),
        };
        proof {
            assert(it.block_list@ =~= Seq::<i32>::empty());
        }
        items.push(it);
        i += 1;
    }
    proof {
        assert forall|j: int| 0 <= j < items@.len() implies #[trigger] views(items@)[j]
            == item_view(items@[j]) by {}
    }
    items
}

/// Return a copy of the items.
pub fn copy_items(items: &Vec<Item>) -> (r: Vec<Item>)
    ensures
        views(r@) == views(items@),
{
    let mut new_items: Vec<Item> = Vec::with_capacity(items.len());
    let mut i: usize = 0;
    while i < items.len()
        invariant
            i <= items@.len(),
            new_items@.len() == i,
            forall|k: int|
                0 <= k < i ==> item_view(#[trigger] new_items@[k]) == item_view(items@[k]),
        decreases items@.len() - i,
    {
        let it = copy_item(&items[i]);
        new_items.push(it);
        i += 1;
    }
    proof {
        assert forall|k: int| 0 <= k < items@.len() implies views(new_items@)[k]
            == views(items@)[k] by {
            assert(views(new_items@)[k] == item_view(new_items@[k]));
            assert(views(items@)[k] == item_view(items@[k]));
        }
        assert(views(new_items@) =~= views(items@));
    }
    new_items
}

/// Total value of the items: of all of them when `add_all` holds, of the
/// selected ones otherwise.
pub fn sum_values(items: &Vec<Item>, add_all: bool) -> (r: i32)
    requires
        wf_items(views(items@)),
        value_all(views(items@)) <= i32::MAX,
    ensures
        r as int == if add_all {
            value_all(views(items@))
        } else {
            value_sel(views(items@))
        },
{
    let ghost vs = views(items@);
    let mut total: i32 = 0;
    let mut i: usize = 0;
    proof {
        assert(vs.skip(0) =~= vs);
    }
    while i < items.len()
        invariant
            i <= items@.len(),
            vs == views(items@),
            vs.len() == items@.len(),
            wf_items(vs),
            value_all(vs) <= i32::MAX,
            add_all ==> total as int == value_all(vs) - value_all(vs.skip(i as int)),
            !add_all ==> total as int == value_sel(vs) - value_sel(vs.skip(i as int)),
        decreases items@.len() - i,
    {
        proof {
            lemma_sums_skip(vs, i as int);
            lemma_wf_skip(vs, i as int);
            lemma_sums_nonneg(vs.skip(i as int));
            lemma_wf_skip(vs, i + 1);
            lemma_sums_nonneg(vs.skip(i + 1));
            lemma_sums_nonneg(vs);
            assert(item_ok(vs[i as int]));
            assert(vs[i as int] == item_view(items@[i as int]));
        }
        if add_all {
            total = total + items[i].value;
        } else if items[i].is_selected {
            total = total + items[i].value;
        }
        i += 1;
    }
    proof {
        assert(vs.skip(vs.len() as int) =~= Seq::<ItemView>::empty());
    }
    total
}

/// Total weight of the items: of all of them when `add_all` holds, of the
/// selected ones otherwise.
pub fn sum_weights(items: &Vec<Item>, add_all: bool) -> (r: i32)
    requires
        wf_items(views(items@)),
        weight_all(views(items@)) <= i32::MAX,
    ensures
        r as int == if add_all {
            weight_all(views(items@))
        } else {
            weight_sel(views(items@))
        },
{
    let ghost vs = views(items@);
    let mut total: i32 = 0;
    let mut i: usize = 0;
    proof {
        assert(vs.skip(0) =~= vs);
    }
    while i < items.len()
        invariant
            i <= items@.len(),
            vs == views(items@),
            vs.len() == items@.len(),
            wf_items(vs),
            weight_all(vs) <= i32::MAX,
            add_all ==> total as int == weight_all(vs) - weight_all(vs.skip(i as int)),
            !add_all ==> total as int == weight_sel(vs) - weight_sel(vs.skip(i as int)),
        decreases items@.len() - i,
    {
        proof {
            lemma_sums_skip(vs, i as int);
            lemma_wf_skip(vs, i as int);
            lemma_sums_nonneg(vs.skip(i as int));
            lemma_wf_skip(vs, i + 1);
            lemma_sums_nonneg(vs.skip(i + 1));
            lemma_sums_nonneg(vs);
            assert(item_ok(vs[i as int]));
            assert(vs[i as int] == item_view(items@[i as int]));
        }
        if add_all {
            total = total + items[i].weight;
        } else if items[i].is_selected {
            total = total + items[i].weight;
        }
        i += 1;
    }
    proof {
        assert(vs.skip(vs.len() as int) =~= Seq::<ItemView>::empty());
    }
    total
}

/// Value of this candidate solution: the sentinel -1 when it is too heavy,
/// so that even an empty solution is preferred, the selected value otherwise.
pub fn solution_value(items: &Vec<Item>, allowed_weight: i32) -> (r: i32)
    requires
        wf_items(views(items@)),
        value_all(views(items@)) <= i32::MAX,
        weight_all(views(items@)) <= i32::MAX,
    ensures
        r as int == solution_value_spec(views(items@), allowed_weight as int),
{
    if sum_weights(items, false) > allowed_weight {
        return -1;
    }
    sum_values(items, false)
}

/// Return a copy of the items with nothing selected.
pub fn make_empty_selection(items: &Vec<Item>) -> (r: Vec<Item>)
    ensures
        views(r@) == views(items@).map_values(
            |it: ItemView| ItemView { is_selected: false, ..it },
        ),
{
    let ghost target = views(items@).map_values(|it: ItemView| ItemView { is_selected: false, ..it });
    let mut new_items: Vec<Item> = Vec::with_capacity(items.len());
    let mut i: usize = 0;
    while i < items.len()
        invariant
            i <= items@.len(),
            target == views(items@).map_values(
                |it: ItemView| ItemView { is_selected: false, ..it },
            ),
            target.len() == items@.len(),
            new_items@.len() == i,
            forall|k: int| 0 <= k < i ==> item_view(#[trigger] new_items@[k]) == target[k],
        decreases items@.len() - i,
    {
        let src = &items[i];
        let it = Item {
            id: src.id,
            value: src.value,
            weight: src.weight,
            is_selected: false,
            blocked_by: match src.blocked_by {
                Some(id) => Some(id),
                None => None,
            },
            block_list: copy_id_list(&src.block_list),
        };
        proof {
            assert(target[i as int] == (ItemView {
                is_selected: false,
                ..views(items@)[i as int]
            }));
            assert(views(items@)[i as int] == item_view(items@[i as int]));
            assert(item_view(it) =~= target[i as int]);
        }
        new_items.push(it);
        i += 1;
    }
    proof {
        assert forall|k: int| 0 <= k < target.len() implies views(new_items@)[k] == target[k] by {
            assert(views(new_items@)[k] == item_view(new_items@[k]));
        }
        assert(views(new_items@) =~= target);
    }
    new_items
}

/// Whether an identity stands in a dominance list.
fn id_in_list(list: &Vec<i32>, id: i32) -> (r: bool)
    ensures
        r == list@.contains(id),
{
    let mut i: usize = 0;
    while i < list.len()
        invariant
            i <= list@.len(),
            forall|j: int| 0 <= j < i ==> list@[j] != id,
        decreases list@.len() - i,
    {
        if list[i] == id {
            return true;
        }
        i += 1;
    }
    false
}

/// Return a copy of the items in which exactly one selection flag is set
/// as asked, everything else unchanged.
fn copy_with_selection(items: &Vec<Item>, idx: usize, sel: bool) -> (r: Vec<Item>)
    requires
        idx < items@.len(),
    ensures
        views(r@) == views(items@).update(
            idx as int,
            ItemView { is_selected: sel, ..views(items@)[idx as int] },
        ),
{
    let ghost target = views(items@).update(
        idx as int,
        ItemView { is_selected: sel, ..views(items@)[idx as int] },
    );
    let mut new_items: Vec<Item> = Vec::with_capacity(items.len());
    let mut i: usize = 0;
    while i < items.len()
        invariant
            i <= items@.len(),
            idx < items@.len(),
            target == views(items@).update(
                idx as int,
                ItemView { is_selected: sel, ..views(items@)[idx as int] },
            ),
            target.len() == items@.len(),
            new_items@.len() == i,
            forall|k: int| 0 <= k < i ==> item_view(#[trigger] new_items@[k]) == target[k],
        decreases items@.len() - i,
    {
        let mut it = copy_item(&items[i]);
        if i == idx {
            it.is_selected = sel;
        }
        proof {
            assert(views(items@)[i as int] == item_view(items@[i as int]));
            assert(item_view(it) =~= target[i as int]);
        }
        new_items.push(it);
        i += 1;
    }
    proof {
        assert forall|k: int| 0 <= k < target.len() implies views(new_items@)[k] == target[k] by {
            assert(views(new_items@)[k] == item_view(new_items@[k]));
        }
        assert(views(new_items@) =~= target);
    }
    new_items
}

/// Return the copy of the items used by the exclude branch at `idx`: that
/// item deselected, and everything its dominance list names (and not yet
/// blocked) marked as blocked by its identity.
fn copy_for_exclude(items: &Vec<Item>, idx: usize) -> (r: Vec<Item>)
    requires
        idx < items@.len(),
        items@.len() <= i32::MAX,
    ensures
        views(r@) == apply_block(views(items@), idx as int),
{
    let ghost target = apply_block(views(items@), idx as int);
    let mut new_items: Vec<Item> = Vec::with_capacity(items.len());
    let mut i: usize = 0;
    while i < items.len()
        invariant
            i <= items@.len(),
            idx < items@.len(),
            items@.len() <= i32::MAX,
            target == apply_block(views(items@), idx as int),
            target.len() == items@.len(),
            new_items@.len() == i,
            forall|k: int| 0 <= k < i ==> item_view(#[trigger] new_items@[k]) == target[k],
        decreases items@.len() - i,
    {
        let mut it = copy_item(&items[i]);
        if i == idx {
            it.is_selected = false;
        } else if id_in_list(&items[idx].block_list, i as i32) && it.blocked_by.is_none() {
            it.blocked_by = Some(items[idx].id);
        }
        proof {
            assert(views(items@)[idx as int] == item_view(items@[idx as int]));
            assert(views(items@)[i as int] == item_view(items@[i as int]));
            assert(views(items@)[idx as int].block_list == items@[idx as int].block_list@);
            assert(item_view(it) =~= target[i as int]);
        }
        new_items.push(it);
        i += 1;
    }
    proof {
        assert forall|k: int| 0 <= k < target.len() implies views(new_items@)[k] == target[k] by {
            assert(views(new_items@)[k] == item_view(new_items@[k]));
        }
        assert(views(new_items@) =~= target);
    }
    new_items
}

/// Compute, for every item, the identities of the items it dominates, and
/// store the lists on the items. The pairwise test is stored as it comes
/// out: mutual domination (equal value and weight) is kept on both sides.
pub fn init_block_lists(items: &mut Vec<Item>)
    ensures
        views(final(items)@) == with_lists(views(old(items)@)),
{
    let ghost orig = views(items@);
    let n = items.len();
    let mut block_lists: Vec<Vec<i32>> = Vec::with_capacity(n);
    let mut i: usize = 0;
    while i < n
        invariant
            n == items@.len(),
            orig == views(items@),
            i <= n,
            block_lists@.len() == i,
            forall|k: int| 0 <= k < i ==> (#[trigger] block_lists@[k])@ == block_ids(orig, k),
        decreases n - i,
    {
        let mut bl: Vec<i32> = Vec::new();
        let mut j: usize = 0;
        proof {
            assert(bl@ =~= block_ids_upto(orig, i as int, 0));
        }
        while j < n
            invariant
                n == items@.len(),
                orig == views(items@),
                i < n,
                j <= n,
                bl@ == block_ids_upto(orig, i as int, j as int),
            decreases n - j,
        {
            proof {
                assert(views(items@)[i as int] == item_view(items@[i as int]));
                assert(views(items@)[j as int] == item_view(items@[j as int]));
            }
            if i != j {
                if items[i].can_block(&items[j]) {
                    bl.push(items[j].id);
                }
            }
            j += 1;
        }
        block_lists.push(bl);
        i += 1;
    }
    let mut new_items: Vec<Item> = Vec::with_capacity(n);
    let mut k: usize = 0;
    while k < n
        invariant
            n == items@.len(),
            orig == views(items@),
            block_lists@.len() == n,
            forall|t: int| 0 <= t < n ==> (#[trigger] block_lists@[t])@ == block_ids(orig, t),
            k <= n,
            new_items@.len() == k,
            forall|t: int| 0 <= t < k ==> item_view(#[trigger] new_items@[t]) == with_lists(orig)[t],
        decreases n - k,
    {
        let src = &items[k];
        let it = Item {
            id: src.id,
            value: src.value,
            weight: src.weight,
            is_selected: src.is_selected,
            blocked_by: match src.blocked_by {
                Some(id) => Some(id),
                None => None,
            },
            block_list: copy_id_list(&block_lists[k]),
        };
        proof {
            assert(views(items@)[k as int] == item_view(items@[k as int]));
            assert(item_view(it) =~= with_lists(orig)[k as int]);
        }
        new_items.push(it);
        k += 1;
    }
    *items = new_items;
    proof {
        assert forall|t: int| 0 <= t < n as int implies views(items@)[t] == with_lists(orig)[t] by {
            assert(views(items@)[t] == item_view(items@[t]));
        }
        assert(views(items@) =~= with_lists(orig));
    }
}

/// Recursively decide each item in or out of the solution. Beyond the plain
/// bound pruning, a blocked item is never force-selected, excluding an item
/// marks everything it dominates as blocked on that branch's copy, and when
/// both branches are skipped the current partial selection is kept. The
/// result is exactly what `rod_step` describes.
pub fn do_rods_technique(
    items: &Vec<Item>,
    allowed_weight: i32,
    next_index: usize,
    best_value: i32,
    current_value: i32,
    current_weight: i32,
    remaining_value: i32,
) -> (r: (Vec<Item>, i32, i64))
    requires
        wf_items(views(items@)),
        items@.len() <= 62,
        next_index <= items@.len(),
        allowed_weight >= 0,
        value_all(views(items@)) <= i32::MAX,
        weight_all(views(items@)) <= i32::MAX,
        current_value as int == value_sel(views(items@)),
        current_weight as int == weight_sel(views(items@)),
        remaining_value as int == value_all(views(items@).skip(next_index as int)),
        unselected_from(views(items@), next_index as int),
        current_weight <= allowed_weight,
    ensures
        ({
            let step = rod_step(
                views(items@),
                allowed_weight as int,
                next_index as int,
                best_value as int,
                current_value as int,
                current_weight as int,
                remaining_value as int,
            );
            views(r.0@) == step.0 && r.1 as int == step.1 && r.2 as int == step.2
        }),
    decreases items@.len() - next_index,
{
    let ghost vs = views(items@);
    proof {
        lemma_sums_nonneg(vs);
        lemma_wf_skip(vs, next_index as int);
        lemma_sums_nonneg(vs.skip(next_index as int));
        lemma_sel_prefix(vs, next_index as int);
    }
    if next_index >= items.len() {
        return (copy_items(items), solution_value(items, allowed_weight), 1);
    }

    if current_value + remaining_value <= best_value {
        let empty = make_empty_selection(items);
        proof {
            let step0 = vs.map_values(|it: ItemView| ItemView { is_selected: false, ..it });
            assert(views(empty@) =~= step0);
        }
        return (empty, 0, 1);
    }

    let next_value = items[next_index].value;
    let next_weight = items[next_index].weight;
    let next_not_blocked = items[next_index].blocked_by.is_none();
    proof {
        lemma_sums_skip(vs, next_index as int);
        lemma_wf_skip(vs, next_index + 1);
        lemma_sums_nonneg(vs.skip(next_index + 1));
        assert(vs[next_index as int] == item_view(items@[next_index as int]));
        assert(item_ok(vs[next_index as int]));
        assert(!vs[next_index as int].is_selected);
    }
    let mut result1_opt: Option<(Vec<Item>, i32, i64)> = None;
    let mut result2_opt: Option<(Vec<Item>, i32, i64)> = None;

    let ghost it = vs[next_index as int];
    let ghost taken = ItemView { is_selected: true, ..it };
    let ghost s1 = vs.update(next_index as int, taken);
    let ghost s2 = apply_block(vs, next_index as int);
    proof {
        lemma_sums_update(vs, next_index as int, taken);
        assert(s1.skip(next_index + 1) =~= vs.skip(next_index + 1));
        assert(s2.len() == vs.len());
        assert(value_sel(s2) == value_sel(vs) && weight_sel(s2) == weight_sel(vs) && value_all(s2)
            == value_all(vs) && weight_all(s2) == weight_all(vs)) by {
            assert forall|j: int|
                0 <= j < s2.len() implies (#[trigger] s2[j]).value == vs[j].value && s2[j].weight
                == vs[j].weight && s2[j].is_selected == vs[j].is_selected by {
                if j == next_index as int {
                    assert(!vs[j].is_selected);
                }
            }
            lemma_sums_congruent(s2, vs);
        }
        assert(value_all(s2.skip(next_index + 1)) == value_all(vs.skip(next_index + 1))) by {
            assert forall|j: int|
                0 <= j < s2.skip(next_index + 1).len() implies (#[trigger] s2.skip(
                    next_index + 1,
                )[j]).value == vs.skip(next_index + 1)[j].value && s2.skip(next_index + 1)[j].weight
                == vs.skip(next_index + 1)[j].weight && s2.skip(next_index + 1)[j].is_selected
                == vs.skip(next_index + 1)[j].is_selected by {
                assert(s2.skip(next_index + 1)[j] == s2[next_index + 1 + j]);
                assert(vs.skip(next_index + 1)[j] == vs[next_index + 1 + j]);
            }
            lemma_sums_congruent(s2.skip(next_index + 1), vs.skip(next_index + 1));
        }
        assert(wf_items(s1) && wf_items(s2)) by {
            assert(item_ok(it));
            assert forall|j: int| 0 <= j < s1.len() implies #[trigger] item_ok(s1[j]) by {
                if j != next_index as int {
                    assert(item_ok(vs[j]));
                }
            }
            assert forall|j: int| 0 <= j < s2.len() implies #[trigger] item_ok(s2[j]) by {
                assert(item_ok(vs[j]));
            }
        }
        assert(unselected_from(s1, next_index + 1)) by {
            assert forall|j: int|
                next_index + 1 <= j < s1.len() implies !(#[trigger] s1[j]).is_selected by {
                assert(s1[j] == vs[j]);
            }
        }
        assert(unselected_from(s2, next_index + 1)) by {
            assert forall|j: int|
                next_index + 1 <= j < s2.len() implies !(#[trigger] s2[j]).is_selected by {
                assert(s2[j].is_selected == vs[j].is_selected);
            }
        }
    }

    if current_weight + next_weight <= allowed_weight && next_not_blocked {
        // Select the next item:
        let new_items = copy_with_selection(items, next_index, true);
        let new_best_value = if current_value + next_value > best_value {
            current_value + next_value
        } else {
            best_value
        };
        proof {
            assert(views(new_items@) == s1);
        }
        result1_opt = Some(
            do_rods_technique(
                &new_items,
                allowed_weight,
                next_index + 1,
                new_best_value,
                current_value + next_value,
                current_weight + next_weight,
                remaining_value - next_value,
            ),
        );
    }

    if current_value + remaining_value - next_value > best_value {
        // Leave the next item out, blocking everything it dominates:
        let new_items = copy_for_exclude(items, next_index);
        result2_opt = Some(
            do_rods_technique(
                &new_items,
                allowed_weight,
                next_index + 1,
                best_value,
                current_value,
                current_weight,
                remaining_value - next_value,
            ),
        );
    }

    proof {
        let k = (vs.len() - next_index) as nat;
        assert(two_to(k + 1) == 2 * two_to(k));
        lemma_two_to_pos(k);
        lemma_two_to_le(k + 1, 63nat);
        lemma_two_to_63();
        if current_weight + next_weight <= allowed_weight && next_not_blocked {
            lemma_rod_step_props(
                s1,
                allowed_weight as int,
                next_index + 1,
                if current_value + next_value > best_value {
                    current_value as int + next_value as int
                } else {
                    best_value as int
                },
                current_value as int + next_value as int,
                current_weight as int + next_weight as int,
                remaining_value as int - next_value as int,
            );
        }
        lemma_rod_step_props(
            s2,
            allowed_weight as int,
            next_index + 1,
            best_value as int,
            current_value as int,
            current_weight as int,
            remaining_value as int - next_value as int,
        );
    }

    // Return the better of the explored branches, ties to the exclude
    // branch; with both skipped, keep the current partial selection.
    match (result1_opt, result2_opt) {
        (Some((solution_1, value_1, calls_1)), Some((solution_2, value_2, calls_2))) => {
            if value_1 > value_2 {
                (solution_1, value_1, calls_1 + calls_2 + 1)
            } else {
                (solution_2, value_2, calls_1 + calls_2 + 1)
            }
        },
        (Some((solution_1, value_1, calls_1)), None) => (solution_1, value_1, calls_1 + 1),
        (None, Some((solution_2, value_2, calls_2))) => (solution_2, value_2, calls_2 + 1),
        (None, None) => (copy_items(items), solution_value(items, allowed_weight), 1),
    }
}

/// Entry point of the blocking search over a fresh (nothing selected)
/// collection: the dominance lists are computed, then the guarded recursion
/// runs from the first item. Returns the chosen assignment, its value, and
/// the number of recursive calls made; the assignment keeps the item data,
/// fits the weight budget, and carries a non-negative value equal to its
/// own solution value. The exact result is `rod_step` started from zero on
/// the collection with its freshly computed lists, which the call also
/// leaves behind in its argument.
pub fn rods_technique(items: &mut Vec<Item>, allowed_weight: i32) -> (r: (Vec<Item>, i32, i64))
    requires
        wf_items(views(old(items)@)),
        old(items)@.len() <= 62,
        allowed_weight >= 0,
        value_all(views(old(items)@)) <= i32::MAX,
        weight_all(views(old(items)@)) <= i32::MAX,
        unselected_from(views(old(items)@), 0),
    ensures
        views(final(items)@) == with_lists(views(old(items)@)),
        ({
            let t = with_lists(views(old(items)@));
            let step = rod_step(t, allowed_weight as int, 0, 0, 0, 0, value_all(t));
            views(r.0@) == step.0 && r.1 as int == step.1 && r.2 as int == step.2
        }),
        same_base(views(r.0@), with_lists(views(old(items)@))),
        weight_sel(views(r.0@)) <= allowed_weight as int,
        r.1 as int == value_sel(views(r.0@)),
        r.1 as int == solution_value_spec(views(r.0@), allowed_weight as int),
        r.1 >= 0,
        r.2 >= 1,
{
    let ghost orig = views(items@);
    let best_value: i32 = 0;
    let current_value: i32 = 0;
    let current_weight: i32 = 0;
    let remaining_value = sum_values(items, true);

    init_block_lists(items);

    proof {
        let t = with_lists(orig);
        assert(t.len() == orig.len());
        assert forall|j: int|
            0 <= j < t.len() implies (#[trigger] t[j]).value == orig[j].value && t[j].weight
            == orig[j].weight && t[j].is_selected == orig[j].is_selected by {}
        lemma_sums_congruent(t, orig);
        assert(wf_items(t)) by {
            assert forall|j: int| 0 <= j < t.len() implies #[trigger] item_ok(t[j]) by {
                assert(item_ok(orig[j]));
            }
        }
        assert(unselected_from(t, 0)) by {
            assert forall|j: int| 0 <= j < t.len() implies !(#[trigger] t[j]).is_selected by {
                assert(!orig[j].is_selected);
            }
        }
        lemma_unselected_zero(t);
        assert(t.skip(0) =~= t);
        lemma_rod_step_props(t, allowed_weight as int, 0, 0, 0, 0, value_all(t));
    }
    do_rods_technique(
        items,
        allowed_weight,
        0,
        best_value,
        current_value,
        current_weight,
        remaining_value,
    )
}

/// How each sum changes when one item is appended.
pub proof fn lemma_sums_push(s: Seq<ItemView>, x: ItemView)
    ensures
        value_all(s.push(x)) == value_all(s) + x.value,
        weight_all(s.push(x)) == weight_all(s) + x.weight,
        value_sel(s.push(x)) == value_sel(s) + value_contrib(x),
        weight_sel(s.push(x)) == weight_sel(s) + weight_contrib(x),
    decreases s.len(),
{
    if s.len() == 0 {
        assert(s.push(x)[0] == x);
        assert(s.push(x).skip(1) =~= s);
    } else {
        assert(s.push(x)[0] == s[0]);
        assert(s.push(x).skip(1) =~= s.skip(1).push(x));
        lemma_sums_push(s.skip(1), x);
    }
}

/// How each sum changes when one item is taken out.
pub proof fn lemma_sums_remove(s: Seq<ItemView>, i: int)
    requires
        0 <= i < s.len(),
    ensures
        value_all(s.remove(i)) == value_all(s) - s[i].value,
        weight_all(s.remove(i)) == weight_all(s) - s[i].weight,
        value_sel(s.remove(i)) == value_sel(s) - value_contrib(s[i]),
        weight_sel(s.remove(i)) == weight_sel(s) - weight_contrib(s[i]),
    decreases s.len(),
{
    if i == 0 {
        assert(s.remove(0) =~= s.skip(1));
    } else {
        assert(s.remove(i)[0] == s[0]);
        assert(s.remove(i).skip(1) =~= s.skip(1).remove(i - 1));
        lemma_sums_remove(s.skip(1), i - 1);
        assert(s.skip(1)[i - 1] == s[i]);
    }
}

/// The value/weight pairs of the collection, the face of the items that a
/// reordering must keep.
pub open spec fn base_pairs(s: Seq<ItemView>) -> Seq<(i32, i32)> {
    s.map_values(|it: ItemView| (it.value, it.weight))
}

/// Sort the items so that the ones with the longest dominance lists come
/// first. The collection keeps exactly the same items (same multiset of
/// mathematical images, hence the same sums); ties may come out in either
/// order.
pub fn sort_by_block_count(items: &mut Vec<Item>)
    ensures
        final(items)@.len() == old(items)@.len(),
        views(final(items)@).to_multiset() == views(old(items)@).to_multiset(),
        base_pairs(views(final(items)@)).to_multiset() == base_pairs(
            views(old(items)@),
        ).to_multiset(),
        value_all(views(final(items)@)) == value_all(views(old(items)@)),
        weight_all(views(final(items)@)) == weight_all(views(old(items)@)),
        value_sel(views(final(items)@)) == value_sel(views(old(items)@)),
        weight_sel(views(final(items)@)) == weight_sel(views(old(items)@)),
        forall|i: int, j: int|
            0 <= i < j < final(items)@.len() ==> (#[trigger] views(final(items)@)[i]).block_list.len()
                >= (#[trigger] views(final(items)@)[j]).block_list.len(),
{
    broadcast use vstd::seq_lib::group_to_multiset_ensures;

    let ghost orig = views(items@);
    let mut out: Vec<Item> = Vec::new();
    proof {
        assert(views(out@) =~= Seq::<ItemView>::empty());
        assert(views(items@).to_multiset().add(views(out@).to_multiset()) =~= orig.to_multiset());
        assert(base_pairs(views(items@)).to_multiset().add(base_pairs(views(out@)).to_multiset())
            =~= base_pairs(orig).to_multiset());
    }
    while items.len() > 0
        invariant
            views(items@).to_multiset().add(views(out@).to_multiset()) == orig.to_multiset(),
            base_pairs(views(items@)).to_multiset().add(base_pairs(views(out@)).to_multiset())
                == base_pairs(orig).to_multiset(),
            value_all(views(items@)) + value_all(views(out@)) == value_all(orig),
            weight_all(views(items@)) + weight_all(views(out@)) == weight_all(orig),
            value_sel(views(items@)) + value_sel(views(out@)) == value_sel(orig),
            weight_sel(views(items@)) + weight_sel(views(out@)) == weight_sel(orig),
            items@.len() + out@.len() == orig.len(),
            forall|a: int, b: int|
                0 <= a < out@.len() && 0 <= b < items@.len() ==> (#[trigger] views(
                    out@,
                )[a]).block_list.len() >= (#[trigger] views(items@)[b]).block_list.len(),
            forall|a: int, b: int|
                0 <= a < b < out@.len() ==> (#[trigger] views(out@)[a]).block_list.len()
                    >= (#[trigger] views(out@)[b]).block_list.len(),
        decreases items@.len(),
    {
        // Find the first item with the longest dominance list.
        let mut m: usize = 0;
        let mut j: usize = 1;
        while j < items.len()
            invariant
                items@.len() > 0,
                m < j <= items@.len(),
                forall|k: int|
                    0 <= k < j ==> (#[trigger] views(items@)[k]).block_list.len() <= views(
                        items@,
                    )[m as int].block_list.len(),
            decreases items@.len() - j,
        {
            proof {
                assert(views(items@)[j as int] == item_view(items@[j as int]));
                assert(views(items@)[m as int] == item_view(items@[m as int]));
            }
            if items[j].block_list.len() > items[m].block_list.len() {
                m = j;
            }
            j += 1;
        }
        let ghost pre = views(items@);
        let ghost pre_out = views(out@);
        let picked = items.remove(m);
        out.push(picked);
        proof {
            assert(views(items@) =~= pre.remove(m as int));
            assert(views(out@) =~= pre_out.push(item_view(picked)));
            assert(item_view(picked) == pre[m as int]);
            vstd::seq_lib::to_multiset_remove(pre, m as int);
            vstd::seq_lib::to_multiset_build(pre_out, item_view(picked));
            vstd::seq_lib::to_multiset_contains(pre, pre[m as int]);
            assert(pre.contains(pre[m as int]));
            assert(pre.to_multiset().count(pre[m as int]) > 0);
            assert(views(items@).to_multiset().add(views(out@).to_multiset()) =~= orig.to_multiset());
            assert(base_pairs(views(items@)) =~= base_pairs(pre).remove(m as int));
            assert(base_pairs(views(out@)) =~= base_pairs(pre_out).push(
                (pre[m as int].value, pre[m as int].weight),
            ));
            assert(base_pairs(pre)[m as int] == (pre[m as int].value, pre[m as int].weight));
            vstd::seq_lib::to_multiset_remove(base_pairs(pre), m as int);
            vstd::seq_lib::to_multiset_build(base_pairs(pre_out), base_pairs(pre)[m as int]);
            vstd::seq_lib::to_multiset_contains(base_pairs(pre), base_pairs(pre)[m as int]);
            assert(base_pairs(pre).contains(base_pairs(pre)[m as int]));
            assert(base_pairs(pre).to_multiset().count(base_pairs(pre)[m as int]) > 0);
            assert(base_pairs(views(items@)).to_multiset().add(
                base_pairs(views(out@)).to_multiset(),
            ) =~= base_pairs(orig).to_multiset());
            lemma_sums_remove(pre, m as int);
            lemma_sums_push(pre_out, item_view(picked));
            assert forall|a: int, b: int|
                0 <= a < views(out@).len() && 0 <= b < views(items@).len() implies (
            #[trigger] views(out@)[a]).block_list.len() >= (#[trigger] views(
                items@,
            )[b]).block_list.len() by {
                assert(views(items@)[b] == if b < m as int {
                    pre[b]
                } else {
                    pre[b + 1]
                });
                if a < pre_out.len() {
                    assert(views(out@)[a] == pre_out[a]);
                } else {
                    assert(views(out@)[a] == pre[m as int]);
                }
            }
            assert forall|a: int, b: int|
                0 <= a < b < views(out@).len() implies (#[trigger] views(out@)[a]).block_list.len()
                >= (#[trigger] views(out@)[b]).block_list.len() by {
                if b < pre_out.len() {
                    assert(views(out@)[a] == pre_out[a] && views(out@)[b] == pre_out[b]);
                } else {
                    assert(views(out@)[b] == pre[m as int]);
                    if a < pre_out.len() {
                        assert(views(out@)[a] == pre_out[a]);
                    }
                }
            }
        }
    }
    proof {
        assert(views(items@) =~= Seq::<ItemView>::empty());
        assert(base_pairs(views(items@)) =~= Seq::<(i32, i32)>::empty());
        assert(views(items@).to_multiset() =~= Multiset::<ItemView>::empty());
        assert(base_pairs(views(items@)).to_multiset() =~= Multiset::<(i32, i32)>::empty());
    }
    *items = out;
    proof {
        assert(views(items@).to_multiset() =~= orig.to_multiset());
        assert(base_pairs(views(items@)).to_multiset() =~= base_pairs(orig).to_multiset());
        vstd::seq_lib::to_multiset_len(orig);
        vstd::seq_lib::to_multiset_len(views(items@));
    }
}

/// Give every item the identity of its position, leaving everything else
/// as it stands.
pub fn reindex(items: &mut Vec<Item>)
    requires
        old(items)@.len() <= i32::MAX,
    ensures
        final(items)@.len() == old(items)@.len(),
        forall|k: int|
            0 <= k < final(items)@.len() ==> views(final(items)@)[k] == (ItemView {
                id: k as i32,
                ..views(old(items)@)[k]
            }),
{
    let ghost orig = views(items@);
    let n = items.len();
    let mut new_items: Vec<Item> = Vec::with_capacity(n);
    let mut k: usize = 0;
    while k < n
        invariant
            n == items@.len(),
            n <= i32::MAX,
            orig == views(items@),
            k <= n,
            new_items@.len() == k,
            forall|t: int|
                0 <= t < k ==> item_view(#[trigger] new_items@[t]) == (ItemView {
                    id: t as i32,
                    ..orig[t]
                }),
        decreases n - k,
    {
        let src = &items[k];
        let it = Item {
            id: k as i32,
            value: src.value,
            weight: src.weight,
            is_selected: src.is_selected,
            blocked_by: match src.blocked_by {
                Some(id) => Some(id),
                None => None,
            },
            block_list: copy_id_list(&src.block_list),
        };
        proof {
            assert(views(items@)[k as int] == item_view(items@[k as int]));
            assert(item_view(it) =~= (ItemView { id: k as i32, ..orig[k as int] }));
        }
        new_items.push(it);
        k += 1;
    }
    *items = new_items;
    proof {
        assert forall|t: int| 0 <= t < views(items@).len() implies #[trigger] views(items@)[t]
            == item_view(items@[t]) by {}
    }
}

/// Entry point of the blocking search with its reordering pre-pass: the
/// dominance lists are computed, the items are sorted with the longest
/// lists first, identities and lists are rebuilt for the new order, and
/// the guarded recursion runs. The collection left in the argument keeps
/// the same value/weight pairs (as a multiset), its identities follow
/// positions, and every dominance list is the one recomputed for the new
/// order; the returned triple is `rod_step` started from zero on it, with
/// the same feasibility guarantees as the unsorted entry.
pub fn rods_technique_sorted(items: &mut Vec<Item>, allowed_weight: i32) -> (r: (
    Vec<Item>,
    i32,
    i64,
))
    requires
        wf_items(views(old(items)@)),
        old(items)@.len() <= 62,
        allowed_weight >= 0,
        value_all(views(old(items)@)) <= i32::MAX,
        weight_all(views(old(items)@)) <= i32::MAX,
        unselected_from(views(old(items)@), 0),
    ensures
        ({
            let t = views(final(items)@);
            &&& t.len() == old(items)@.len()
            &&& base_pairs(t).to_multiset() == base_pairs(views(old(items)@)).to_multiset()
            &&& wf_items(t)
            &&& wf_ids(t)
            &&& unselected_from(t, 0)
            &&& forall|k: int| 0 <= k < t.len() ==> (#[trigger] t[k]).block_list == block_ids(t, k)
            &&& value_all(t) == value_all(views(old(items)@))
            &&& weight_all(t) == weight_all(views(old(items)@))
            &&& ({
                let step = rod_step(t, allowed_weight as int, 0, 0, 0, 0, value_all(t));
                views(r.0@) == step.0 && r.1 as int == step.1 && r.2 as int == step.2
            })
        }),
        weight_sel(views(r.0@)) <= allowed_weight as int,
        r.1 as int == value_sel(views(r.0@)),
        r.1 as int == solution_value_spec(views(r.0@), allowed_weight as int),
        r.1 >= 0,
        r.2 >= 1,
{
    let ghost orig = views(items@);
    let best_value: i32 = 0;
    let current_value: i32 = 0;
    let current_weight: i32 = 0;

    init_block_lists(items);
    let ghost listed = with_lists(orig);
    proof {
        assert forall|j: int|
            0 <= j < listed.len() implies (#[trigger] listed[j]).value == orig[j].value
            && listed[j].weight == orig[j].weight && listed[j].is_selected
            == orig[j].is_selected by {}
        lemma_sums_congruent(listed, orig);
        assert(base_pairs(listed) =~= base_pairs(orig));
    }

    sort_by_block_count(items);
    let ghost sorted = views(items@);

    // Rebuild identities for the new order, then rebuild the lists.
    reindex(items);
    proof {
        let t2 = views(items@);
        assert forall|j: int|
            0 <= j < t2.len() implies (#[trigger] t2[j]).value == sorted[j].value && t2[j].weight
            == sorted[j].weight && t2[j].is_selected == sorted[j].is_selected by {}
        lemma_sums_congruent(t2, sorted);
        assert(base_pairs(t2) =~= base_pairs(sorted));
    }
    let ghost reindexed = views(items@);
    init_block_lists(items);
    proof {
        let t3 = with_lists(reindexed);
        assert forall|j: int|
            0 <= j < t3.len() implies (#[trigger] t3[j]).value == reindexed[j].value && t3[j].weight
            == reindexed[j].weight && t3[j].is_selected == reindexed[j].is_selected by {}
        lemma_sums_congruent(t3, reindexed);
        assert(base_pairs(t3) =~= base_pairs(reindexed));
        // Well-formedness survives the reordering: every item of the sorted
        // collection is one of the original items.
        broadcast use vstd::seq_lib::group_to_multiset_ensures;

        assert(wf_items(sorted)) by {
            assert forall|j: int| 0 <= j < sorted.len() implies #[trigger] item_ok(sorted[j]) by {
                vstd::seq_lib::to_multiset_contains(sorted, sorted[j]);
                vstd::seq_lib::to_multiset_contains(listed, sorted[j]);
                assert(sorted.contains(sorted[j]));
                assert(sorted.to_multiset().count(sorted[j]) > 0);
                assert(listed.to_multiset().count(sorted[j]) > 0);
                assert(listed.contains(sorted[j]));
                let w = choose|w: int| 0 <= w < listed.len() && listed[w] == sorted[j];
                assert(listed[w].value == orig[w].value && listed[w].weight == orig[w].weight);
                assert(item_ok(orig[w]));
            }
        }
        assert(unselected_from(sorted, 0)) by {
            assert forall|j: int|
                0 <= j < sorted.len() implies !(#[trigger] sorted[j]).is_selected by {
                vstd::seq_lib::to_multiset_contains(sorted, sorted[j]);
                vstd::seq_lib::to_multiset_contains(listed, sorted[j]);
                assert(sorted.contains(sorted[j]));
                assert(sorted.to_multiset().count(sorted[j]) > 0);
                assert(listed.to_multiset().count(sorted[j]) > 0);
                assert(listed.contains(sorted[j]));
                let w = choose|w: int| 0 <= w < listed.len() && listed[w] == sorted[j];
                assert(listed[w].is_selected == orig[w].is_selected);
                assert(!orig[w].is_selected);
            }
        }
        assert(wf_items(t3)) by {
            assert forall|j: int| 0 <= j < t3.len() implies #[trigger] item_ok(t3[j]) by {
                assert(item_ok(sorted[j]));
            }
        }
        assert(unselected_from(t3, 0)) by {
            assert forall|j: int| 0 <= j < t3.len() implies !(#[trigger] t3[j]).is_selected by {
                assert(!sorted[j].is_selected);
            }
        }
        assert(wf_ids(t3)) by {
            assert forall|j: int| 0 <= j < t3.len() implies (#[trigger] t3[j]).id as int == j by {
                assert(t3[j].id == reindexed[j].id);
            }
        }
        assert forall|k: int| 0 <= k < t3.len() implies (#[trigger] t3[k]).block_list == block_ids(
            t3,
            k,
        ) by {
            assert(block_ids_upto(reindexed, k, reindexed.len() as int) == block_ids_upto(
                t3,
                k,
                t3.len() as int,
            )) by {
                lemma_block_ids_congruent(reindexed, t3, k, reindexed.len() as int);
            }
        }
        lemma_unselected_zero(t3);
        assert(t3.skip(0) =~= t3);
        lemma_rod_step_props(t3, allowed_weight as int, 0, 0, 0, 0, value_all(t3));
    }
    let remaining_value = sum_values(items, true);

    do_rods_technique(
        items,
        allowed_weight,
        0,
        best_value,
        current_value,
        current_weight,
        remaining_value,
    )
}

/// Dominance lists depend only on values, weights and identities, so two
/// collections agreeing on those have the same lists.
pub proof fn lemma_block_ids_congruent(a: Seq<ItemView>, b: Seq<ItemView>, i: int, j: int)
    requires
        a.len() == b.len(),
        0 <= i < a.len(),
        j <= a.len(),
        forall|k: int|
            0 <= k < a.len() ==> (#[trigger] a[k]).value == b[k].value && a[k].weight == b[k].weight
                && a[k].id == b[k].id,
    ensures
        block_ids_upto(a, i, j) == block_ids_upto(b, i, j),
    decreases j,
{
    if j > 0 {
        lemma_block_ids_congruent(a, b, i, j - 1);
    }
}

/// Membership in a dominance list: whenever one item dominates another, the
/// other's identity stands in its list.
pub proof fn lemma_block_ids_has(s: Seq<ItemView>, a: int, b: int, j: int)
    requires
        0 <= a < s.len(),
        0 <= b < j <= s.len(),
        a != b,
        can_block_spec(s[a], s[b]),
    ensures
        block_ids_upto(s, a, j).contains(s[b].id),
    decreases j,
{
    if j - 1 == b {
        let l = block_ids_upto(s, a, j);
        assert(l == block_ids_upto(s, a, j - 1).push(s[b].id));
        assert(l[l.len() - 1] == s[b].id);
    } else {
        lemma_block_ids_has(s, a, b, j - 1);
        let prev = block_ids_upto(s, a, j - 1);
        let w = choose|w: int| 0 <= w < prev.len() && prev[w] == s[b].id;
        if j - 1 != a && can_block_spec(s[a], s[j - 1]) {
            assert(block_ids_upto(s, a, j)[w] == s[b].id);
        } else {
            assert(block_ids_upto(s, a, j)[w] == s[b].id);
        }
    }
}

/// Dominance symmetry: two distinct items with equal value and equal weight
/// dominate each other, and each one's identity stands in the other's
/// computed dominance list.
pub proof fn lemma_dominance_symmetry(s: Seq<ItemView>, a: int, b: int)
    requires
        0 <= a < s.len(),
        0 <= b < s.len(),
        a != b,
        s[a].value == s[b].value,
        s[a].weight == s[b].weight,
    ensures
        can_block_spec(s[a], s[b]),
        can_block_spec(s[b], s[a]),
        block_ids(s, a).contains(s[b].id),
        block_ids(s, b).contains(s[a].id),
{
    lemma_block_ids_has(s, a, b, s.len() as int);
    lemma_block_ids_has(s, b, a, s.len() as int);
}

/// The best value any completion of the collection from position `idx` on
/// can reach, the already-decided prefix kept as it stands: the exhaustive
/// maximum that a search may never exceed.
pub open spec fn best_from(s: Seq<ItemView>, allowed_weight: int, idx: int) -> int
    decreases s.len() - idx,
    when 0 <= idx
{
    if idx >= s.len() {
        solution_value_spec(s, allowed_weight)
    } else {
        let it = s[idx];
        let take = best_from(s.update(idx, ItemView { is_selected: true, ..it }), allowed_weight, idx + 1);
        let leave = best_from(
            s.update(idx, ItemView { is_selected: false, ..it }),
            allowed_weight,
            idx + 1,
        );
        if take > leave {
            take
        } else {
            leave
        }
    }
}

/// Every completion of the undecided suffix is counted by `best_from`: a
/// collection with the same values and weights, agreeing on the decided
/// prefix, reports at most the exhaustive maximum.
pub proof fn lemma_completion_bounded(s: Seq<ItemView>, t: Seq<ItemView>, allowed_weight: int, idx: int)
    requires
        0 <= idx <= s.len(),
        t.len() == s.len(),
        forall|i: int|
            0 <= i < t.len() ==> (#[trigger] t[i]).value == s[i].value && t[i].weight
                == s[i].weight,
        forall|j: int| 0 <= j < idx ==> (#[trigger] t[j]).is_selected == s[j].is_selected,
    ensures
        solution_value_spec(t, allowed_weight) <= best_from(s, allowed_weight, idx),
    decreases s.len() - idx,
{
    if idx >= s.len() {
        assert forall|i: int|
            0 <= i < t.len() implies (#[trigger] t[i]).value == s[i].value && t[i].weight
            == s[i].weight && t[i].is_selected == s[i].is_selected by {}
        lemma_sums_congruent(t, s);
    } else {
        let it = s[idx];
        let flagged = ItemView { is_selected: t[idx].is_selected, ..it };
        let s2 = s.update(idx, flagged);
        assert forall|i: int|
            0 <= i < t.len() implies (#[trigger] t[i]).value == s2[i].value && t[i].weight
            == s2[i].weight by {
            assert(t[i].value == s[i].value && t[i].weight == s[i].weight);
        }
        assert forall|j: int| 0 <= j < idx + 1 implies (#[trigger] t[j]).is_selected
            == s2[j].is_selected by {
            if j < idx {
                assert(s2[j] == s[j]);
            }
        }
        lemma_completion_bounded(s2, t, allowed_weight, idx + 1);
        if t[idx].is_selected {
            assert(flagged == (ItemView { is_selected: true, ..it }));
        } else {
            assert(flagged == (ItemView { is_selected: false, ..it }));
        }
    }
}

/// One direction of optimality for the blocking search: the value it
/// reports is the solution value of a selection it returns, so it never
/// exceeds the exhaustive maximum over all selections of the same items,
/// and it never falls below the empty selection's value of zero.
pub proof fn lemma_rods_value_bounded(s: Seq<ItemView>, allowed_weight: int)
    requires
        wf_items(s),
        allowed_weight >= 0,
        unselected_from(s, 0),
    ensures
        ({
            let r = rod_step(s, allowed_weight, 0, 0, 0, 0, value_all(s));
            0 <= r.1 <= best_from(s, allowed_weight, 0)
        }),
{
    lemma_unselected_zero(s);
    assert(s.skip(0) =~= s);
    lemma_rod_step_props(s, allowed_weight, 0, 0, 0, 0, value_all(s));
    let r = rod_step(s, allowed_weight, 0, 0, 0, 0, value_all(s));
    lemma_completion_bounded(s, r.0, allowed_weight, 0);
}

/// When every item weighs at least one unit, a selection within a zero
/// budget selects nothing.
pub proof fn lemma_heavy_items_empty(s: Seq<ItemView>)
    requires
        wf_items(s),
        forall|i: int| 0 <= i < s.len() ==> (#[trigger] s[i]).weight >= 1,
        weight_sel(s) <= 0,
    ensures
        unselected_from(s, 0),
        value_sel(s) == 0,
    decreases s.len(),
{
    if s.len() > 0 {
        lemma_wf_skip(s, 1);
        lemma_sums_nonneg(s.skip(1));
        assert forall|i: int| 0 <= i < s.skip(1).len() implies (#[trigger] s.skip(1)[i]).weight
            >= 1 by {
            assert(s.skip(1)[i] == s[i + 1]);
        }
        lemma_heavy_items_empty(s.skip(1));
        assert(!s[0].is_selected);
        assert forall|j: int| 0 <= j < s.len() implies !(#[trigger] s[j]).is_selected by {
            if j > 0 {
                assert(s.skip(1)[j - 1] == s[j]);
            }
        }
        lemma_unselected_zero(s);
    }
}

/// Empty-budget run of the blocking search: with a zero weight budget and
/// no weightless items, the search reports value zero and an empty
/// selection.
pub proof fn lemma_empty_budget_rods(s: Seq<ItemView>)
    requires
        wf_items(s),
        forall|i: int| 0 <= i < s.len() ==> (#[trigger] s[i]).weight >= 1,
        unselected_from(s, 0),
    ensures
        ({
            let r = rod_step(s, 0, 0, 0, 0, 0, value_all(s));
            r.1 == 0 && unselected_from(r.0, 0) && value_sel(r.0) == 0 && weight_sel(r.0) == 0
        }),
{
    lemma_unselected_zero(s);
    assert(s.skip(0) =~= s);
    lemma_rod_step_props(s, 0, 0, 0, 0, 0, value_all(s));
    let r = rod_step(s, 0, 0, 0, 0, 0, value_all(s));
    assert forall|i: int| 0 <= i < r.0.len() implies (#[trigger] r.0[i]).weight >= 1 by {
        assert(r.0[i].weight == s[i].weight);
        assert(s[i].weight >= 1);
    }
    lemma_heavy_items_empty(r.0);
    lemma_unselected_zero(r.0);
}

} // verus!
