use vstd::prelude::*;

verus! {

/// One selectable unit of the plain branch-and-bound search: a value, a
/// weight, and the flag saying whether the current branch has taken it.
#[derive(Clone, Copy)]
pub struct Item {
    pub value: i32,
    pub weight: i32,
    pub is_selected: bool,
}

/// An item is well formed when its value and weight are non-negative.
pub open spec fn item_ok(it: Item) -> bool {
    it.value >= 0 && it.weight >= 0
}

/// Every item of the collection is well formed.
pub open spec fn wf_items(s: Seq<Item>) -> bool {
    forall|i: int| 0 <= i < s.len() ==> #[trigger] item_ok(s[i])
}

/// Sum of the values of all items.
pub open spec fn value_all(s: Seq<Item>) -> int
    decreases s.len(),
{
    if s.len() == 0 {
        0
    } else {
        s[0].value + value_all(s.skip(1))
    }
}

/// Sum of the weights of all items.
pub open spec fn weight_all(s: Seq<Item>) -> int
    decreases s.len(),
{
    if s.len() == 0 {
        0
    } else {
        s[0].weight + weight_all(s.skip(1))
    }
}

/// What a selected item contributes to the selected-value sum.
pub open spec fn value_contrib(it: Item) -> int {
    if it.is_selected {
        it.value as int
    } else {
        0
    }
}

/// What a selected item contributes to the selected-weight sum.
pub open spec fn weight_contrib(it: Item) -> int {
    if it.is_selected {
        it.weight as int
    } else {
        0
    }
}

/// Sum of the values of the selected items.
pub open spec fn value_sel(s: Seq<Item>) -> int
    decreases s.len(),
{
    if s.len() == 0 {
        0
    } else {
        value_contrib(s[0]) + value_sel(s.skip(1))
    }
}

/// Sum of the weights of the selected items.
pub open spec fn weight_sel(s: Seq<Item>) -> int
    decreases s.len(),
{
    if s.len() == 0 {
        0
    } else {
        weight_contrib(s[0]) + weight_sel(s.skip(1))
    }
}

/// Value of a candidate solution: the selected value when the selected
/// weight fits the budget, and the sentinel -1 otherwise, so that an
/// overweight candidate always loses against the empty selection.
pub open spec fn solution_value_spec(s: Seq<Item>, allowed_weight: int) -> int {
    if weight_sel(s) > allowed_weight {
        -1
    } else {
        value_sel(s)
    }
}

/// The same items with every selection flag cleared.
pub open spec fn cleared(s: Seq<Item>) -> Seq<Item> {
    Seq::new(s.len(), |i: int| Item { value: s[i].value, weight: s[i].weight, is_selected: false })
}

/// Two collections hold the same values and weights position by position.
pub open spec fn same_base(a: Seq<Item>, b: Seq<Item>) -> bool {
    &&& a.len() == b.len()
    &&& forall|i: int|
        0 <= i < a.len() ==> (#[trigger] a[i]).value == b[i].value && a[i].weight == b[i].weight
}

/// No item at or beyond position `i` is selected.
pub open spec fn unselected_from(s: Seq<Item>, i: int) -> bool {
    forall|j: int| i <= j < s.len() ==> !(#[trigger] s[j]).is_selected
}

/// Powers of two, used to bound the number of recursive calls.
pub open spec fn two_to(n: nat) -> nat
    decreases n,
{
    if n == 0 {
        1
    } else {
        2 * two_to((n - 1) as nat)
    }
}

/// One step of the sum definitions, read at an arbitrary suffix.
pub proof fn lemma_sums_skip(s: Seq<Item>, i: int)
    requires
        0 <= i < s.len(),
    ensures
        value_all(s.skip(i)) == s[i].value + value_all(s.skip(i + 1)),
        weight_all(s.skip(i)) == s[i].weight + weight_all(s.skip(i + 1)),
        value_sel(s.skip(i)) == value_contrib(s[i]) + value_sel(s.skip(i + 1)),
        weight_sel(s.skip(i)) == weight_contrib(s[i]) + weight_sel(s.skip(i + 1)),
{
    assert(s.skip(i).skip(1) =~= s.skip(i + 1));
    assert(s.skip(i)[0] == s[i]);
}

/// The suffix of a well-formed collection is well formed.
pub proof fn lemma_wf_skip(s: Seq<Item>, i: int)
    requires
        wf_items(s),
        0 <= i <= s.len(),
    ensures
        wf_items(s.skip(i)),
{
    assert forall|j: int| 0 <= j < s.skip(i).len() implies #[trigger] item_ok(s.skip(i)[j]) by {
        assert(s.skip(i)[j] == s[i + j]);
        assert(item_ok(s[i + j]));
    }
}

/// All four sums are non-negative, and each selected sum is bounded by the
/// matching sum over all items.
pub proof fn lemma_sums_nonneg(s: Seq<Item>)
    requires
        wf_items(s),
    ensures
        value_all(s) >= 0,
        weight_all(s) >= 0,
        0 <= value_sel(s) <= value_all(s),
        0 <= weight_sel(s) <= weight_all(s),
    decreases s.len(),
{
    if s.len() > 0 {
        assert(item_ok(s[0]));
        lemma_wf_skip(s, 1);
        lemma_sums_nonneg(s.skip(1));
    }
}

/// How each sum changes when one item is replaced.
pub proof fn lemma_sums_update(s: Seq<Item>, i: int, x: Item)
    requires
        0 <= i < s.len(),
    ensures
        value_all(s.update(i, x)) == value_all(s) - s[i].value + x.value,
        weight_all(s.update(i, x)) == weight_all(s) - s[i].weight + x.weight,
        value_sel(s.update(i, x)) == value_sel(s) - value_contrib(s[i]) + value_contrib(x),
        weight_sel(s.update(i, x)) == weight_sel(s) - weight_contrib(s[i]) + weight_contrib(x),
    decreases s.len(),
{
    let u = s.update(i, x);
    if i == 0 {
        assert(u[0] == x);
        assert(u.skip(1) =~= s.skip(1));
    } else {
        assert(u[0] == s[0]);
        assert(u.skip(1) =~= s.skip(1).update(i - 1, x));
        lemma_sums_update(s.skip(1), i - 1, x);
        assert(s.skip(1)[i - 1] == s[i]);
    }
}

/// A collection with no selection at all sums to zero on the selected side.
pub proof fn lemma_unselected_zero(s: Seq<Item>)
    requires
        unselected_from(s, 0),
    ensures
        value_sel(s) == 0,
        weight_sel(s) == 0,
    decreases s.len(),
{
    if s.len() > 0 {
        assert(!s[0].is_selected);
        assert(unselected_from(s.skip(1), 0)) by {
            assert forall|j: int| 0 <= j < s.skip(1).len() implies !(#[trigger] s.skip(1)[j]).is_selected by {
                assert(s.skip(1)[j] == s[j + 1]);
            }
        }
        lemma_unselected_zero(s.skip(1));
    }
}

/// When everything from position `i` on is still undecided, the committed
/// selection and the undecided suffix together stay within the full sums.
pub proof fn lemma_sel_prefix(s: Seq<Item>, i: int)
    requires
        wf_items(s),
        0 <= i <= s.len(),
        unselected_from(s, i),
    ensures
        value_sel(s) + value_all(s.skip(i)) <= value_all(s),
        weight_sel(s) + weight_all(s.skip(i)) <= weight_all(s),
    decreases i,
{
    if i == 0 {
        lemma_unselected_zero(s);
        assert(s.skip(0) =~= s);
    } else {
        assert(item_ok(s[0]));
        lemma_wf_skip(s, 1);
        assert(unselected_from(s.skip(1), i - 1)) by {
            assert forall|j: int| i - 1 <= j < s.skip(1).len() implies !(#[trigger] s.skip(1)[j]).is_selected by {
                assert(s.skip(1)[j] == s[j + 1]);
            }
        }
        lemma_sel_prefix(s.skip(1), i - 1);
        assert(s.skip(1).skip(i - 1) =~= s.skip(i));
    }
}

/// The result of one recursive step of the plain branch-and-bound search:
/// the chosen collection, its reported value, and the number of calls made.
/// This follows the recursion exactly: terminal copy, bound prune, the
/// include branch (guarded by the weight budget), the exclude branch
/// (guarded by the remaining-value bound), and the combine step that keeps
/// the higher value, ties going to the exclude branch.
pub open spec fn plain_step(
    s: Seq<Item>,
    allowed_weight: int,
    idx: int,
    best: int,
    cur_v: int,
    cur_w: int,
    rem: int,
) -> (Seq<Item>, int, int)
    decreases s.len() - idx,
    when 0 <= idx
{
    if idx >= s.len() {
        (s, solution_value_spec(s, allowed_weight), 1)
    } else if cur_v + rem <= best {
        (cleared(s), 0, 1)
    } else {
        let it = s[idx];
        let can_include = cur_w + it.weight <= allowed_weight;
        let can_exclude = cur_v + rem - it.value > best;
        let taken = Item { value: it.value, weight: it.weight, is_selected: true };
        let dropped = Item { value: it.value, weight: it.weight, is_selected: false };
        let new_best = if cur_v + it.value > best {
            cur_v + it.value
        } else {
            best
        };
        let r1 = plain_step(
            s.update(idx, taken),
            allowed_weight,
            idx + 1,
            new_best,
            cur_v + it.value,
            cur_w + it.weight,
            rem - it.value,
        );
        let r2 = plain_step(
            s.update(idx, dropped),
            allowed_weight,
            idx + 1,
            best,
            cur_v,
            cur_w,
            rem - it.value,
        );
        if can_include && can_exclude {
            if r1.1 > r2.1 {
                (r1.0, r1.1, r1.2 + r2.2 + 1)
            } else {
                (r2.0, r2.1, r1.2 + r2.2 + 1)
            }
        } else if can_include {
            (r1.0, r1.1, r1.2 + 1)
        } else if can_exclude {
            (r2.0, r2.1, r2.2 + 1)
        } else {
            (cleared(s), 0, 1)
        }
    }
}

/// Every step of the plain search keeps the item data, returns a feasible
/// selection whose reported value is its own solution value (hence
/// non-negative), and makes between one and fewer than 2^(n - idx + 1) calls.
pub proof fn lemma_plain_step_props(
    s: Seq<Item>,
    allowed_weight: int,
    idx: int,
    best: int,
    cur_v: int,
    cur_w: int,
    rem: int,
)
    requires
        wf_items(s),
        0 <= idx <= s.len(),
        allowed_weight >= 0,
        cur_v == value_sel(s),
        cur_w == weight_sel(s),
        rem == value_all(s.skip(idx)),
        unselected_from(s, idx),
        cur_w <= allowed_weight,
    ensures
        ({
            let r = plain_step(s, allowed_weight, idx, best, cur_v, cur_w, rem);
            &&& same_base(r.0, s)
            &&& wf_items(r.0)
            &&& weight_sel(r.0) <= allowed_weight
            &&& r.1 == value_sel(r.0)
            &&& r.1 == solution_value_spec(r.0, allowed_weight)
            &&& r.1 >= 0
            &&& 1 <= r.2 < two_to((s.len() - idx + 1) as nat)
        }),
    decreases s.len() - idx,
{
    lemma_sums_nonneg(s);
    lemma_wf_skip(s, idx);
    lemma_sums_nonneg(s.skip(idx));
    lemma_sel_prefix(s, idx);
    if idx >= s.len() {
        // Terminal: the collection itself is returned with its solution value.
        assert(two_to(0nat) == 1);
        assert(two_to(1nat) == 2);
        lemma_two_to_le(1nat, (s.len() - idx + 1) as nat);
        assert(weight_sel(s) <= allowed_weight);
        assert(same_base(s, s));
    } else if cur_v + rem <= best {
        // Bound prune: an empty selection of value zero.
        let c = cleared(s);
        assert(c.len() == s.len());
        assert forall|i: int| 0 <= i < c.len() implies (#[trigger] c[i]).value == s[i].value
            && c[i].weight == s[i].weight && !c[i].is_selected by {}
        assert(same_base(c, s));
        assert(unselected_from(c, 0));
        assert(wf_items(c)) by {
            assert forall|i: int| 0 <= i < c.len() implies #[trigger] item_ok(c[i]) by {
                assert(item_ok(s[i]));
            }
        }
        lemma_unselected_zero(c);
        assert(two_to(0nat) == 1);
        assert(two_to(1nat) == 2);
        lemma_two_to_le(1nat, (s.len() - idx + 1) as nat);
    } else {
        let it = s[idx];
        lemma_sums_skip(s, idx);
        lemma_wf_skip(s, idx + 1);
        lemma_sums_nonneg(s.skip(idx + 1));
        assert(!it.is_selected);
        let taken = Item { value: it.value, weight: it.weight, is_selected: true };
        let dropped = Item { value: it.value, weight: it.weight, is_selected: false };
        let s1 = s.update(idx, taken);
        let s2 = s.update(idx, dropped);
        lemma_sums_update(s, idx, taken);
        lemma_sums_update(s, idx, dropped);
        assert(s1.skip(idx + 1) =~= s.skip(idx + 1));
        assert(s2.skip(idx + 1) =~= s.skip(idx + 1));
        assert(wf_items(s1) && wf_items(s2)) by {
            assert(item_ok(it));
            assert forall|j: int| 0 <= j < s1.len() implies #[trigger] item_ok(s1[j]) by {
                if j != idx {
                    assert(item_ok(s[j]));
                }
            }
            assert forall|j: int| 0 <= j < s2.len() implies #[trigger] item_ok(s2[j]) by {
                if j != idx {
                    assert(item_ok(s[j]));
                }
            }
        }
        assert(unselected_from(s1, idx + 1)) by {
            assert forall|j: int| idx + 1 <= j < s1.len() implies !(#[trigger] s1[j]).is_selected by {
                assert(s1[j] == s[j]);
            }
        }
        assert(unselected_from(s2, idx + 1)) by {
            assert forall|j: int| idx + 1 <= j < s2.len() implies !(#[trigger] s2[j]).is_selected by {
                assert(s2[j] == s[j]);
            }
        }
        let can_include = cur_w + it.weight <= allowed_weight;
        let can_exclude = cur_v + rem - it.value > best;
        let new_best = if cur_v + it.value > best {
            cur_v + it.value
        } else {
            best
        };
        if can_include {
            lemma_plain_step_props(
                s1,
                allowed_weight,
                idx + 1,
                new_best,
                cur_v + it.value,
                cur_w + it.weight,
                rem - it.value,
            );
        }
        lemma_plain_step_props(s2, allowed_weight, idx + 1, best, cur_v, cur_w, rem - it.value);
        if !can_include && !can_exclude {
            let c = cleared(s);
            assert forall|j: int| 0 <= j < c.len() implies (#[trigger] c[j]).value == s[j].value
                && c[j].weight == s[j].weight && !c[j].is_selected by {}
            assert(same_base(c, s));
            assert(unselected_from(c, 0));
            assert(wf_items(c)) by {
                assert forall|j: int| 0 <= j < c.len() implies #[trigger] item_ok(c[j]) by {
                    assert(item_ok(s[j]));
                }
            }
            lemma_unselected_zero(c);
        }
        let k = (s.len() - idx) as nat;
        assert(two_to(k + 1) == 2 * two_to(k));
        assert(two_to(k) >= 1) by {
            lemma_two_to_pos(k);
        }
        assert(s1.len() == s.len());
        assert(s2.len() == s.len());
        assert((s1.len() - (idx + 1) + 1) as nat == k);
        assert((s2.len() - (idx + 1) + 1) as nat == k);
        assert((s.len() - idx + 1) as nat == k + 1);
        let r = plain_step(s, allowed_weight, idx, best, cur_v, cur_w, rem);
        let r1 = plain_step(
            s1,
            allowed_weight,
            idx + 1,
            new_best,
            cur_v + it.value,
            cur_w + it.weight,
            rem - it.value,
        );
        let r2 = plain_step(s2, allowed_weight, idx + 1, best, cur_v, cur_w, rem - it.value);
        if can_include {
            assert(same_base(r1.0, s)) by {
                assert forall|j: int|
                    0 <= j < r1.0.len() implies (#[trigger] r1.0[j]).value == s[j].value
                    && r1.0[j].weight == s[j].weight by {
                    assert(r1.0[j].value == s1[j].value && r1.0[j].weight == s1[j].weight);
                }
            }
        }
        if can_exclude || can_include {
            assert(same_base(r2.0, s)) by {
                assert forall|j: int|
                    0 <= j < r2.0.len() implies (#[trigger] r2.0[j]).value == s[j].value
                    && r2.0[j].weight == s[j].weight by {
                    assert(r2.0[j].value == s2[j].value && r2.0[j].weight == s2[j].weight);
                }
            }
        }
    }
}

/// Powers of two are at least one.
pub proof fn lemma_two_to_pos(n: nat)
    ensures
        two_to(n) >= 1,
    decreases n,
{
    if n > 0 {
        lemma_two_to_pos((n - 1) as nat);
    }
}

/// Powers of two grow with the exponent.
pub proof fn lemma_two_to_le(a: nat, b: nat)
    requires
        a <= b,
    ensures
        two_to(a) <= two_to(b),
    decreases b,
{
    if a < b {
        lemma_two_to_le(a, (b - 1) as nat);
        lemma_two_to_pos((b - 1) as nat);
    }
}

/// Build the item collection for a run from plain value/weight pairs.
/// Nothing starts out selected.
pub fn make_items(pairs: &Vec<(i32, i32)>) -> (r: Vec<Item>)
    requires
        forall|i: int| 0 <= i < pairs@.len() ==> (#[trigger] pairs@[i]).0 >= 0 && pairs@[i].1 >= 0,
    ensures
        r@.len() == pairs@.len(),
        forall|i: int|
            0 <= i < r@.len() ==> (#[trigger] r@[i]).value == pairs@[i].0 && r@[i].weight
                == pairs@[i].1 && !r@[i].is_selected,
        wf_items(r@),
        unselected_from(r@, 0),
{
    let mut items: Vec<Item> = Vec::with_capacity(pairs.len());
    let mut i: usize = 0;
    while i < pairs.len()
        invariant
            i <= pairs@.len(),
            items@.len() == i,
            forall|j: int| 0 <= j < pairs@.len() ==> (#[trigger] pairs@[j]).0 >= 0 && pairs@[j].1 >= 0,
            forall|j: int|
                0 <= j < i ==> (#[trigger] items@[j]).value == pairs@[j].0 && items@[j].weight
                    == pairs@[j].1 && !items@[j].is_selected,
        decreases pairs@.len() - i,
    {
        let (v, w) = pairs[i];
        items.push(Item { value: v, weight: w, is_selected: false });
        i += 1;
    }
    items
}

/// Return a copy of the items.
pub fn copy_items(items: &Vec<Item>) -> (r: Vec<Item>)
    ensures
        r@ == items@,
{
    let mut new_items: Vec<Item> = Vec::with_capacity(items.len());
    let mut i: usize = 0;
    while i < items.len()
        invariant
            i <= items@.len(),
            new_items@ == items@.take(i as int),
        decreases items@.len() - i,
    {
        let it = items[i];
        new_items.push(it);
        proof {
            assert(items@.take(i + 1) =~= items@.take(i as int).push(items@[i as int]));
        }
        i += 1;
    }
    proof {
        assert(items@.take(items@.len() as int) =~= items@);
    }
    new_items
}

/// Return a copy of the items with nothing selected.
pub fn make_empty_selection(items: &Vec<Item>) -> (r: Vec<Item>)
    ensures
        r@ == cleared(items@),
{
    let mut new_items: Vec<Item> = Vec::with_capacity(items.len());
    let mut i: usize = 0;
    while i < items.len()
        invariant
            i <= items@.len(),
            new_items@ == cleared(items@).take(i as int),
        decreases items@.len() - i,
    {
        let it = items[i];
        new_items.push(Item { value: it.value, weight: it.weight, is_selected: false });
        proof {
            assert(cleared(items@).take(i + 1) =~= cleared(items@).take(i as int).push(
                cleared(items@)[i as int],
            ));
        }
        i += 1;
    }
    proof {
        assert(cleared(items@).take(items@.len() as int) =~= cleared(items@));
    }
    new_items
}

/// Return a copy of the items in which exactly one selection flag is set
/// as asked, everything else unchanged.
fn copy_with_selection(items: &Vec<Item>, idx: usize, sel: bool) -> (r: Vec<Item>)
    requires
        idx < items@.len(),
    ensures
        r@ == items@.update(
            idx as int,
            Item {
                value: items@[idx as int].value,
                weight: items@[idx as int].weight,
                is_selected: sel,
            },
        ),
{
    let ghost target = items@.update(
        idx as int,
        Item {
            value: items@[idx as int].value,
            weight: items@[idx as int].weight,
            is_selected: sel,
        },
    );
    let mut new_items: Vec<Item> = Vec::with_capacity(items.len());
    let mut i: usize = 0;
    while i < items.len()
        invariant
            i <= items@.len(),
            idx < items@.len(),
            target == items@.update(
                idx as int,
                Item {
                    value: items@[idx as int].value,
                    weight: items@[idx as int].weight,
                    is_selected: sel,
                },
            ),
            new_items@ == target.take(i as int),
        decreases items@.len() - i,
    {
        let it = items[i];
        if i == idx {
            new_items.push(Item { value: it.value, weight: it.weight, is_selected: sel });
        } else {
            new_items.push(it);
        }
        proof {
            assert(target.take(i + 1) =~= target.take(i as int).push(target[i as int]));
        }
        i += 1;
    }
    proof {
        assert(target.take(target.len() as int) =~= target);
    }
    new_items
}

/// Total value of the items: of all of them when `add_all` holds, of the
/// selected ones otherwise.
pub fn sum_values(items: &Vec<Item>, add_all: bool) -> (r: i32)
    requires
        wf_items(items@),
        value_all(items@) <= i32::MAX,
    ensures
        r as int == if add_all {
            value_all(items@)
        } else {
            value_sel(items@)
        },
{
    let mut total: i32 = 0;
    let mut i: usize = 0;
    proof {
        assert(items@.skip(0) =~= items@);
    }
    while i < items.len()
        invariant
            i <= items@.len(),
            wf_items(items@),
            value_all(items@) <= i32::MAX,
            add_all ==> total as int == value_all(items@) - value_all(items@.skip(i as int)),
            !add_all ==> total as int == value_sel(items@) - value_sel(items@.skip(i as int)),
        decreases items@.len() - i,
    {
        proof {
            lemma_sums_skip(items@, i as int);
            lemma_wf_skip(items@, i as int);
            lemma_sums_nonneg(items@.skip(i as int));
            lemma_wf_skip(items@, i + 1);
            lemma_sums_nonneg(items@.skip(i + 1));
            lemma_sums_nonneg(items@);
            assert(item_ok(items@[i as int]));
        }
        if add_all {
            total = total + items[i].value;
        } else if items[i].is_selected {
            total = total + items[i].value;
        }
        i += 1;
    }
    proof {
        assert(items@.skip(items@.len() as int) =~= Seq::<Item>::empty());
    }
    total
}

/// Total weight of the items: of all of them when `add_all` holds, of the
/// selected ones otherwise.
pub fn sum_weights(items: &Vec<Item>, add_all: bool) -> (r: i32)
    requires
        wf_items(items@),
        weight_all(items@) <= i32::MAX,
    ensures
        r as int == if add_all {
            weight_all(items@)
        } else {
            weight_sel(items@)
        },
{
    let mut total: i32 = 0;
    let mut i: usize = 0;
    proof {
        assert(items@.skip(0) =~= items@);
    }
    while i < items.len()
        invariant
            i <= items@.len(),
            wf_items(items@),
            weight_all(items@) <= i32::MAX,
            add_all ==> total as int == weight_all(items@) - weight_all(items@.skip(i as int)),
            !add_all ==> total as int == weight_sel(items@) - weight_sel(items@.skip(i as int)),
        decreases items@.len() - i,
    {
        proof {
            lemma_sums_skip(items@, i as int);
            lemma_wf_skip(items@, i as int);
            lemma_sums_nonneg(items@.skip(i as int));
            lemma_wf_skip(items@, i + 1);
            lemma_sums_nonneg(items@.skip(i + 1));
            lemma_sums_nonneg(items@);
            assert(item_ok(items@[i as int]));
        }
        if add_all {
            total = total + items[i].weight;
        } else if items[i].is_selected {
            total = total + items[i].weight;
        }
        i += 1;
    }
    proof {
        assert(items@.skip(items@.len() as int) =~= Seq::<Item>::empty());
    }
    total
}

/// Value of this candidate solution: the sentinel -1 when it is too heavy,
/// so that even an empty solution is preferred, the selected value otherwise.
pub fn solution_value(items: &Vec<Item>, allowed_weight: i32) -> (r: i32)
    requires
        wf_items(items@),
        value_all(items@) <= i32::MAX,
        weight_all(items@) <= i32::MAX,
    ensures
        r as int == solution_value_spec(items@, allowed_weight as int),
{
    if sum_weights(items, false) > allowed_weight {
        return -1;
    }
    sum_values(items, false)
}

/// Recursively decide each item in or out of the solution, pruning subtrees
/// that cannot beat the best value seen so far. Returns the chosen
/// assignment, its value, and the number of recursive calls made; the
/// result is exactly what `plain_step` describes.
pub fn do_branch_and_bound(
    items: &Vec<Item>,
    allowed_weight: i32,
    next_index: usize,
    best_value: i32,
    current_value: i32,
    current_weight: i32,
    remaining_value: i32,
) -> (r: (Vec<Item>, i32, i64))
    requires
        wf_items(items@),
        items@.len() <= 62,
        next_index <= items@.len(),
        allowed_weight >= 0,
        value_all(items@) <= i32::MAX,
        weight_all(items@) <= i32::MAX,
        current_value as int == value_sel(items@),
        current_weight as int == weight_sel(items@),
        remaining_value as int == value_all(items@.skip(next_index as int)),
        unselected_from(items@, next_index as int),
        current_weight <= allowed_weight,
    ensures
        ({
            let step = plain_step(
                items@,
                allowed_weight as int,
                next_index as int,
                best_value as int,
                current_value as int,
                current_weight as int,
                remaining_value as int,
            );
            r.0@ == step.0 && r.1 as int == step.1 && r.2 as int == step.2
        }),
    decreases items@.len() - next_index,
{
    proof {
        lemma_sums_nonneg(items@);
        lemma_wf_skip(items@, next_index as int);
        lemma_sums_nonneg(items@.skip(next_index as int));
        lemma_sel_prefix(items@, next_index as int);
    }
    if next_index >= items.len() {
        return (copy_items(items), solution_value(items, allowed_weight), 1);
    }

    if current_value + remaining_value <= best_value {
        return (make_empty_selection(items), 0, 1);
    }

    let next_item = items[next_index];
    proof {
        lemma_sums_skip(items@, next_index as int);
        lemma_wf_skip(items@, next_index + 1);
        lemma_sums_nonneg(items@.skip(next_index + 1));
        assert(item_ok(items@[next_index as int]));
        assert(!items@[next_index as int].is_selected);
    }
    let mut result1_opt: Option<(Vec<Item>, i32, i64)> = None;
    let mut result2_opt: Option<(Vec<Item>, i32, i64)> = None;

    let ghost taken = Item { value: next_item.value, weight: next_item.weight, is_selected: true };
    let ghost dropped = Item {
        value: next_item.value,
        weight: next_item.weight,
        is_selected: false,
    };
    let ghost s1 = items@.update(next_index as int, taken);
    let ghost s2 = items@.update(next_index as int, dropped);
    proof {
        lemma_sums_update(items@, next_index as int, taken);
        lemma_sums_update(items@, next_index as int, dropped);
        assert(s1.skip(next_index + 1) =~= items@.skip(next_index + 1));
        assert(s2.skip(next_index + 1) =~= items@.skip(next_index + 1));
        assert(wf_items(s1) && wf_items(s2)) by {
            assert forall|j: int| 0 <= j < s1.len() implies #[trigger] item_ok(s1[j]) by {
                if j != next_index as int {
                    assert(item_ok(items@[j]));
                }
            }
            assert forall|j: int| 0 <= j < s2.len() implies #[trigger] item_ok(s2[j]) by {
                if j != next_index as int {
                    assert(item_ok(items@[j]));
                }
            }
        }
        assert(unselected_from(s1, next_index + 1)) by {
            assert forall|j: int|
                next_index + 1 <= j < s1.len() implies !(#[trigger] s1[j]).is_selected by {
                assert(s1[j] == items@[j]);
            }
        }
        assert(unselected_from(s2, next_index + 1)) by {
            assert forall|j: int|
                next_index + 1 <= j < s2.len() implies !(#[trigger] s2[j]).is_selected by {
                assert(s2[j] == items@[j]);
            }
        }
    }

    if current_weight + next_item.weight <= allowed_weight {
        // Select the next item:
        let new_items = copy_with_selection(items, next_index, true);
        let new_best_value = if current_value + next_item.value > best_value {
            current_value + next_item.value
        } else {
            best_value
        };
        result1_opt = Some(
            do_branch_and_bound(
                &new_items,
                allowed_weight,
                next_index + 1,
                new_best_value,
                current_value + next_item.value,
                current_weight + next_item.weight,
                remaining_value - next_item.value,
            ),
        );
    }

    if current_value + remaining_value - next_item.value > best_value {
        // Leave the next item out:
        let new_items = copy_with_selection(items, next_index, false);
        result2_opt = Some(
            do_branch_and_bound(
                &new_items,
                allowed_weight,
                next_index + 1,
                best_value,
                current_value,
                current_weight,
                remaining_value - next_item.value,
            ),
        );
    }

    proof {
        let k = (items@.len() - next_index) as nat;
        assert(two_to(k + 1) == 2 * two_to(k));
        lemma_two_to_pos(k);
        lemma_two_to_le(k + 1, 63nat);
        assert(two_to(63nat) == 0x8000000000000000) by {
            lemma_two_to_63();
        }
        if current_weight + next_item.weight <= allowed_weight {
            lemma_plain_step_props(
                s1,
                allowed_weight as int,
                next_index + 1,
                if current_value + next_item.value > best_value {
                    current_value as int + next_item.value as int
                } else {
                    best_value as int
                },
                current_value as int + next_item.value as int,
                current_weight as int + next_item.weight as int,
                remaining_value as int - next_item.value as int,
            );
        }
        lemma_plain_step_props(
            s2,
            allowed_weight as int,
            next_index + 1,
            best_value as int,
            current_value as int,
            current_weight as int,
            remaining_value as int - next_item.value as int,
        );
    }

    // Return the better of the explored branches, ties to the exclude branch.
    match (result1_opt, result2_opt) {
        (Some((solution_1, value_1, calls_1)), Some((solution_2, value_2, calls_2))) => {
            if value_1 > value_2 {
                (solution_1, value_1, calls_1 + calls_2 + 1)
            } else {
                (solution_2, value_2, calls_1 + calls_2 + 1)
            }
        },
        (Some((solution_1, value_1, calls_1)), None) => (solution_1, value_1, calls_1 + 1),
        (None, Some((solution_2, value_2, calls_2))) => (solution_2, value_2, calls_2 + 1),
        (None, None) => (make_empty_selection(items), 0, 1),
    }
}

/// Sixty-three doublings, spelled out so the call-count arithmetic of the
/// searches stays within a signed 64-bit count.
pub proof fn lemma_two_to_63()
    ensures
        two_to(63nat) == 0x8000000000000000,
{
    assert(two_to(63nat) == 0x8000000000000000) by {
        reveal_with_fuel(two_to, 64);
    }
}

/// Entry point of the plain branch-and-bound search over a fresh (nothing
/// selected) collection: returns the chosen assignment, its value, and the
/// number of recursive calls made. The assignment keeps the item data,
/// fits the weight budget, and carries a non-negative value equal to its
/// own solution value; the exact result is `plain_step` started from zero.
pub fn branch_and_bound(items: &Vec<Item>, allowed_weight: i32) -> (r: (Vec<Item>, i32, i64))
    requires
        wf_items(items@),
        items@.len() <= 62,
        allowed_weight >= 0,
        value_all(items@) <= i32::MAX,
        weight_all(items@) <= i32::MAX,
        unselected_from(items@, 0),
    ensures
        ({
            let step = plain_step(items@, allowed_weight as int, 0, 0, 0, 0, value_all(items@));
            r.0@ == step.0 && r.1 as int == step.1 && r.2 as int == step.2
        }),
        same_base(r.0@, items@),
        weight_sel(r.0@) <= allowed_weight as int,
        r.1 as int == value_sel(r.0@),
        r.1 as int == solution_value_spec(r.0@, allowed_weight as int),
        r.1 >= 0,
        r.2 >= 1,
{
    let best_value: i32 = 0;
    let current_value: i32 = 0;
    let current_weight: i32 = 0;
    let remaining_value = sum_values(items, true);

    proof {
        lemma_unselected_zero(items@);
        assert(items@.skip(0) =~= items@);
        lemma_plain_step_props(
            items@,
            allowed_weight as int,
            0,
            0,
            0,
            0,
            value_all(items@),
        );
    }
    do_branch_and_bound(
        items,
        allowed_weight,
        0,
        best_value,
        current_value,
        current_weight,
        remaining_value,
    )
}

/// When every item weighs at least one unit, a selection within a zero
/// budget selects nothing.
pub proof fn lemma_heavy_items_empty(s: Seq<Item>)
    requires
        wf_items(s),
        forall|i: int| 0 <= i < s.len() ==> (#[trigger] s[i]).weight >= 1,
        weight_sel(s) <= 0,
    ensures
        unselected_from(s, 0),
        value_sel(s) == 0,
    decreases s.len(),
{
    if s.len() > 0 {
        lemma_wf_skip(s, 1);
        lemma_sums_nonneg(s.skip(1));
        assert forall|i: int| 0 <= i < s.skip(1).len() implies (#[trigger] s.skip(1)[i]).weight
            >= 1 by {
            assert(s.skip(1)[i] == s[i + 1]);
        }
        lemma_heavy_items_empty(s.skip(1));
        assert(!s[0].is_selected);
        assert forall|j: int| 0 <= j < s.len() implies !(#[trigger] s[j]).is_selected by {
            if j > 0 {
                assert(s.skip(1)[j - 1] == s[j]);
            }
        }
        lemma_unselected_zero(s);
    }
}

/// Empty-budget run of the plain search: with a zero weight budget and no
/// weightless items, the search reports value zero and an empty selection.
pub proof fn lemma_empty_budget_plain(s: Seq<Item>)
    requires
        wf_items(s),
        forall|i: int| 0 <= i < s.len() ==> (#[trigger] s[i]).weight >= 1,
        unselected_from(s, 0),
    ensures
        ({
            let r = plain_step(s, 0, 0, 0, 0, 0, value_all(s));
            r.1 == 0 && unselected_from(r.0, 0) && value_sel(r.0) == 0 && weight_sel(r.0) == 0
        }),
{
    lemma_unselected_zero(s);
    assert(s.skip(0) =~= s);
    lemma_plain_step_props(s, 0, 0, 0, 0, 0, value_all(s));
    let r = plain_step(s, 0, 0, 0, 0, 0, value_all(s));
    assert forall|i: int| 0 <= i < r.0.len() implies (#[trigger] r.0[i]).weight >= 1 by {
        assert(r.0[i].weight == s[i].weight);
        assert(s[i].weight >= 1);
    }
    lemma_heavy_items_empty(r.0);
    lemma_unselected_zero(r.0);
}

/// Collections that agree on values, weights and selection flags have the
/// same sums.
pub proof fn lemma_sums_congruent(a: Seq<Item>, b: Seq<Item>)
    requires
        a.len() == b.len(),
        forall|i: int|
            0 <= i < a.len() ==> (#[trigger] a[i]).value == b[i].value && a[i].weight
                == b[i].weight && a[i].is_selected == b[i].is_selected,
    ensures
        value_all(a) == value_all(b),
        weight_all(a) == weight_all(b),
        value_sel(a) == value_sel(b),
        weight_sel(a) == weight_sel(b),
    decreases a.len(),
{
    if a.len() > 0 {
        assert(a[0].value == b[0].value && a[0].weight == b[0].weight && a[0].is_selected
            == b[0].is_selected);
        assert forall|i: int|
            0 <= i < a.skip(1).len() implies (#[trigger] a.skip(1)[i]).value == b.skip(1)[i].value
            && a.skip(1)[i].weight == b.skip(1)[i].weight && a.skip(1)[i].is_selected
            == b.skip(1)[i].is_selected by {
            assert(a.skip(1)[i] == a[i + 1]);
            assert(b.skip(1)[i] == b[i + 1]);
        }
        lemma_sums_congruent(a.skip(1), b.skip(1));
    }
}

/// The best value any completion of the collection from position `idx` on
/// can reach, the already-decided prefix kept as it stands: the exhaustive
/// maximum that a search may never exceed.
pub open spec fn best_from(s: Seq<Item>, allowed_weight: int, idx: int) -> int
    decreases s.len() - idx,
    when 0 <= idx
{
    if idx >= s.len() {
        solution_value_spec(s, allowed_weight)
    } else {
        let it = s[idx];
        let take = best_from(
            s.update(idx, Item { value: it.value, weight: it.weight, is_selected: true }),
            allowed_weight,
            idx + 1,
        );
        let leave = best_from(
            s.update(idx, Item { value: it.value, weight: it.weight, is_selected: false }),
            allowed_weight,
            idx + 1,
        );
        if take > leave {
            take
        } else {
            leave
        }
    }
}

/// Every completion of the undecided suffix is counted by `best_from`: a
/// collection with the same values and weights, agreeing on the decided
/// prefix, reports at most the exhaustive maximum.
pub proof fn lemma_completion_bounded(s: Seq<Item>, t: Seq<Item>, allowed_weight: int, idx: int)
    requires
        0 <= idx <= s.len(),
        same_base(t, s),
        forall|j: int| 0 <= j < idx ==> (#[trigger] t[j]).is_selected == s[j].is_selected,
    ensures
        solution_value_spec(t, allowed_weight) <= best_from(s, allowed_weight, idx),
    decreases s.len() - idx,
{
    if idx >= s.len() {
        assert forall|i: int|
            0 <= i < t.len() implies (#[trigger] t[i]).value == s[i].value && t[i].weight
            == s[i].weight && t[i].is_selected == s[i].is_selected by {}
        lemma_sums_congruent(t, s);
    } else {
        let it = s[idx];
        let flagged = Item { value: it.value, weight: it.weight, is_selected: t[idx].is_selected };
        let s2 = s.update(idx, flagged);
        assert(same_base(t, s2)) by {
            assert forall|i: int|
                0 <= i < t.len() implies (#[trigger] t[i]).value == s2[i].value && t[i].weight
                == s2[i].weight by {
                assert(t[i].value == s[i].value && t[i].weight == s[i].weight);
            }
        }
        assert forall|j: int| 0 <= j < idx + 1 implies (#[trigger] t[j]).is_selected
            == s2[j].is_selected by {
            if j < idx {
                assert(s2[j] == s[j]);
            }
        }
        lemma_completion_bounded(s2, t, allowed_weight, idx + 1);
        if t[idx].is_selected {
            assert(flagged == (Item { value: it.value, weight: it.weight, is_selected: true }));
        } else {
            assert(flagged == (Item { value: it.value, weight: it.weight, is_selected: false }));
        }
    }
}

/// One direction of optimality for the plain search: the value it reports
/// is the solution value of a selection it returns, so it never exceeds the
/// exhaustive maximum over all selections of the same items, and it never
/// falls below the empty selection's value of zero. (The other direction
/// does not hold: the strict exclude guard can discard a candidate that
/// only ties the running bound, so the reported value can fall short of
/// the maximum.)
pub proof fn lemma_plain_value_bounded(s: Seq<Item>, allowed_weight: int)
    requires
        wf_items(s),
        allowed_weight >= 0,
        unselected_from(s, 0),
    ensures
        ({
            let r = plain_step(s, allowed_weight, 0, 0, 0, 0, value_all(s));
            0 <= r.1 <= best_from(s, allowed_weight, 0)
        }),
{
    lemma_unselected_zero(s);
    assert(s.skip(0) =~= s);
    lemma_plain_step_props(s, allowed_weight, 0, 0, 0, 0, value_all(s));
    let r = plain_step(s, allowed_weight, 0, 0, 0, 0, value_all(s));
    lemma_completion_bounded(s, r.0, allowed_weight, 0);
}

/// The sentinel comparison: a candidate over the budget is reported as -1,
/// strictly below the value 0 of the empty selection; a candidate within
/// the budget is reported with its non-negative selected value.
pub proof fn lemma_sentinel_ordering(s: Seq<Item>, allowed_weight: int)
    requires
        wf_items(s),
    ensures
        weight_sel(s) > allowed_weight <==> solution_value_spec(s, allowed_weight) == -1,
        weight_sel(s) > allowed_weight ==> solution_value_spec(s, allowed_weight) < 0,
        weight_sel(s) <= allowed_weight ==> solution_value_spec(s, allowed_weight) >= 0,
{
    lemma_sums_nonneg(s);
}

} // verus!
