//! Computes the new attribute order for one start tag.
//!
//! `v-bind="object"` spreads split the attribute list into segments;
//! attributes are never moved across a spread because that can change the
//! evaluated result. Attributes of `spreadSafe` groups are the exception: they
//! are sorted into the first segment. Inside a segment attributes are ordered
//! by group, then by the group's sort, then by cluster (the first occurrence
//! of a key anchors its cluster), then static `class` before bound `:class`,
//! then by source position.

use vstd::prelude::*;

use crate::attribute::{Key, KeyView};
use crate::profile::{Classification, GroupSort, Profile};
use crate::text::seq_eq;

verus! {

/// The keys' mathematical contents.
pub open spec fn key_views(keys: Seq<Key>) -> Seq<KeyView> {
    keys.map_values(|k: Key| k@)
}

/// `a` sorts before `b` character by character (`str`'s `Ord`).
pub open spec fn lex_less(a: Seq<char>, b: Seq<char>) -> bool
    decreases a.len(),
{
    if a.len() == 0 {
        b.len() > 0
    } else if b.len() == 0 {
        false
    } else if a[0] < b[0] {
        true
    } else if a[0] == b[0] {
        lex_less(a.drop_first(), b.drop_first())
    } else {
        false
    }
}

pub proof fn lemma_lex_irreflexive(a: Seq<char>)
    ensures
        !lex_less(a, a),
    decreases a.len(),
{
    if a.len() > 0 {
        lemma_lex_irreflexive(a.drop_first());
    }
}

pub proof fn lemma_lex_transitive(a: Seq<char>, b: Seq<char>, c: Seq<char>)
    requires
        lex_less(a, b),
        lex_less(b, c),
    ensures
        lex_less(a, c),
    decreases a.len(),
{
    if a.len() > 0 && b.len() > 0 && c.len() > 0 && a[0] == b[0] && b[0] == c[0] {
        lemma_lex_transitive(a.drop_first(), b.drop_first(), c.drop_first());
    }
}

pub proof fn lemma_lex_total(a: Seq<char>, b: Seq<char>)
    ensures
        a == b || lex_less(a, b) || lex_less(b, a),
    decreases a.len(),
{
    if a.len() > 0 && b.len() > 0 && a[0] == b[0] {
        lemma_lex_total(a.drop_first(), b.drop_first());
        if a.drop_first() == b.drop_first() {
            assert(a.drop_first().len() == b.drop_first().len());
            assert(a.len() == b.len());
            assert(a =~= b) by {
                assert forall|i: int| 0 <= i < a.len() implies a[i] == b[i] by {
                    if i > 0 {
                        assert(a[i] == a.drop_first()[i - 1]);
                        assert(b[i] == b.drop_first()[i - 1]);
                    }
                }
            }
        }
    } else if a.len() == 0 && b.len() == 0 {
        assert(a =~= b);
    }
}

pub fn lex_less_exec(a: &[char], b: &[char]) -> (r: bool)
    ensures
        r == lex_less(a@, b@),
{
    let mut i: usize = 0;
    assert(a@.skip(0) == a@ && b@.skip(0) == b@);
    while i < a.len() && i < b.len() && a[i] == b[i]
        invariant
            i <= a.len(),
            i <= b.len(),
            lex_less(a@, b@) == lex_less(a@.skip(i as int), b@.skip(i as int)),
        decreases a.len() - i,
    {
        proof {
            assert(a@.skip(i as int).drop_first() == a@.skip(i + 1));
            assert(b@.skip(i as int).drop_first() == b@.skip(i + 1));
        }
        i += 1;
    }
    if i == a.len() {
        i < b.len()
    } else if i == b.len() {
        false
    } else {
        a[i] < b[i]
    }
}

/// The group (and pattern) of attribute `i`.
pub open spec fn cls(keys: Seq<KeyView>, profile: Profile, i: int) -> Classification {
    profile.classify_key(keys[i].name)
}

/// Attribute `i` may move across spreads: it is not a spread and its group is `spreadSafe`.
pub open spec fn movable(keys: Seq<KeyView>, profile: Profile, i: int) -> bool {
    !keys[i].spread && profile.spec_groups()[cls(keys, profile, i).group as int].spread_safe
}

/// Number of spreads among `keys[..i]`.
pub open spec fn spreads_before(keys: Seq<KeyView>, i: int) -> nat
    decreases i,
{
    if i <= 0 {
        0
    } else {
        spreads_before(keys, i - 1) + if keys[i - 1].spread {
            1nat
        } else {
            0nat
        }
    }
}

/// The output block of attribute `i`: the `k`-th spread is block `2k + 1`;
/// the attributes between spread `k` and spread `k + 1` form block `2k + 2`;
/// movable attributes and those before the first spread form block 0.
pub open spec fn block(keys: Seq<KeyView>, profile: Profile, i: int) -> int {
    if keys[i].spread {
        2 * (spreads_before(keys, i) as int) + 1
    } else if movable(keys, profile, i) {
        0
    } else {
        2 * (spreads_before(keys, i) as int)
    }
}

/// `j` is in the same block as `i` and has the same key name.
pub open spec fn same_cluster(keys: Seq<KeyView>, profile: Profile, j: int, i: int) -> bool {
    block(keys, profile, j) == block(keys, profile, i) && keys[j].name == keys[i].name
}

/// First index at or after `j` (and at most `i`) in the cluster of `i`.
pub open spec fn anchor_from(keys: Seq<KeyView>, profile: Profile, i: int, j: int) -> int
    decreases i - j,
{
    if j >= i {
        i
    } else if same_cluster(keys, profile, j, i) {
        j
    } else {
        anchor_from(keys, profile, i, j + 1)
    }
}

/// The first occurrence of `i`'s key in its block: the anchor of its cluster.
pub open spec fn anchor(keys: Seq<KeyView>, profile: Profile, i: int) -> int {
    anchor_from(keys, profile, i, 0)
}

/// Rank inside a cluster: a bound `:class` comes after a static `class`;
/// for other names the source order is kept.
pub open spec fn cluster_rank(keys: Seq<KeyView>, i: int) -> int {
    if keys[i].name == "class"@ && keys[i].bound {
        1
    } else {
        0
    }
}

/// The group sort puts `a` before `b` (both in one group).
pub open spec fn sort_less(keys: Seq<KeyView>, profile: Profile, a: int, b: int) -> bool {
    match profile.spec_groups()[cls(keys, profile, a).group as int].sort {
        GroupSort::Source => false,
        GroupSort::Alphabetical => lex_less(keys[a].name, keys[b].name),
        GroupSort::Listed => cls(keys, profile, a).pattern < cls(keys, profile, b).pattern,
    }
}

/// The group sort does not tell `a` and `b` apart.
pub open spec fn sort_tie(keys: Seq<KeyView>, profile: Profile, a: int, b: int) -> bool {
    match profile.spec_groups()[cls(keys, profile, a).group as int].sort {
        GroupSort::Source => true,
        GroupSort::Alphabetical => keys[a].name == keys[b].name,
        GroupSort::Listed => cls(keys, profile, a).pattern == cls(keys, profile, b).pattern,
    }
}

/// Attribute `a` is written before attribute `b`.
pub open spec fn order_less(keys: Seq<KeyView>, profile: Profile, a: int, b: int) -> bool {
    let (ba, bb) = (block(keys, profile, a), block(keys, profile, b));
    let (ga, gb) = (cls(keys, profile, a).group, cls(keys, profile, b).group);
    let (aa, ab) = (anchor(keys, profile, a), anchor(keys, profile, b));
    let (ca, cb) = (cluster_rank(keys, a), cluster_rank(keys, b));
    ||| ba < bb
    ||| ba == bb && ga < gb
    ||| ba == bb && ga == gb && sort_less(keys, profile, a, b)
    ||| ba == bb && ga == gb && sort_tie(keys, profile, a, b) && aa < ab
    ||| ba == bb && ga == gb && sort_tie(keys, profile, a, b) && aa == ab && ca < cb
    ||| ba == bb && ga == gb && sort_tie(keys, profile, a, b) && aa == ab && ca == cb && a < b
}

/// `s` lists each of `0..n` once, in attribute order.
pub open spec fn is_attribute_order(keys: Seq<KeyView>, profile: Profile, s: Seq<usize>) -> bool {
    &&& s.len() == keys.len()
    &&& forall|k: int| 0 <= k < s.len() ==> #[trigger] s[k] < keys.len()
    &&& forall|i: usize| i < keys.len() ==> #[trigger] s.contains(i)
    &&& forall|p: int, q: int|
        0 <= p < q < s.len() ==> order_less(keys, profile, #[trigger] s[p] as int, #[trigger] s[q] as int)
}

/// The attribute order of `keys`: the indices `0..keys.len()` sorted by [`order_less`].
pub open spec fn spec_attribute_order(keys: Seq<KeyView>, profile: Profile) -> Seq<usize> {
    choose|s: Seq<usize>| is_attribute_order(keys, profile, s)
}

proof fn lemma_anchor_from(keys: Seq<KeyView>, profile: Profile, i: int, j: int)
    requires
        0 <= j <= i < keys.len(),
    ensures
        j <= anchor_from(keys, profile, i, j) <= i,
        same_cluster(keys, profile, anchor_from(keys, profile, i, j), i),
        forall|k: int| j <= k < anchor_from(keys, profile, i, j) ==> !same_cluster(keys, profile, k, i),
    decreases i - j,
{
    if j < i && !same_cluster(keys, profile, j, i) {
        lemma_anchor_from(keys, profile, i, j + 1);
    }
}

/// Two attributes of one cluster share its anchor.
proof fn lemma_anchor_shared(keys: Seq<KeyView>, profile: Profile, a: int, b: int)
    requires
        0 <= a < keys.len(),
        0 <= b < keys.len(),
        same_cluster(keys, profile, a, b),
    ensures
        anchor(keys, profile, a) == anchor(keys, profile, b),
{
    lemma_anchor_from(keys, profile, a, 0);
    lemma_anchor_from(keys, profile, b, 0);
    let (x, y) = (anchor(keys, profile, a), anchor(keys, profile, b));
    if x < y {
        assert(same_cluster(keys, profile, x, b));
    } else if y < x {
        assert(same_cluster(keys, profile, y, a));
    }
}

/// Attributes with the same anchor are in one cluster.
proof fn lemma_anchor_same(keys: Seq<KeyView>, profile: Profile, a: int, b: int)
    requires
        0 <= a < keys.len(),
        0 <= b < keys.len(),
        anchor(keys, profile, a) == anchor(keys, profile, b),
    ensures
        same_cluster(keys, profile, a, b),
{
    lemma_anchor_from(keys, profile, a, 0);
    lemma_anchor_from(keys, profile, b, 0);
}

/// [`order_less`] is a strict total order on attribute indices.
pub proof fn lemma_order_strict_total(keys: Seq<KeyView>, profile: Profile, a: int, b: int, c: int)
    requires
        0 <= a < keys.len(),
        0 <= b < keys.len(),
        0 <= c < keys.len(),
    ensures
        !order_less(keys, profile, a, a),
        a != b ==> order_less(keys, profile, a, b) || order_less(keys, profile, b, a),
        order_less(keys, profile, a, b) && order_less(keys, profile, b, c) ==> order_less(
            keys,
            profile,
            a,
            c,
        ),
{
    lemma_lex_irreflexive(keys[a].name);
    lemma_lex_total(keys[a].name, keys[b].name);
    if lex_less(keys[a].name, keys[b].name) && lex_less(keys[b].name, keys[c].name) {
        lemma_lex_transitive(keys[a].name, keys[b].name, keys[c].name);
    }
    if lex_less(keys[a].name, keys[b].name) && lex_less(keys[b].name, keys[a].name) {
        lemma_lex_transitive(keys[a].name, keys[b].name, keys[a].name);
        lemma_lex_irreflexive(keys[a].name);
    }
    if anchor(keys, profile, a) == anchor(keys, profile, b) {
        lemma_anchor_same(keys, profile, a, b);
    }
    if anchor(keys, profile, b) == anchor(keys, profile, c) {
        lemma_anchor_same(keys, profile, b, c);
    }
    if anchor(keys, profile, a) == anchor(keys, profile, c) {
        lemma_anchor_same(keys, profile, a, c);
    }
}

/// Two sequences in attribute order are equal: the attribute order is unique.
pub proof fn lemma_attribute_order_unique(
    keys: Seq<KeyView>,
    profile: Profile,
    s1: Seq<usize>,
    s2: Seq<usize>,
)
    requires
        is_attribute_order(keys, profile, s1),
        is_attribute_order(keys, profile, s2),
    ensures
        s1 == s2,
{
    assert forall|k: int| 0 <= k < s1.len() implies s1[k] == s2[k] by {
        lemma_orders_agree_upto(keys, profile, s1, s2, k);
    }
    assert(s1 =~= s2);
}

proof fn lemma_orders_agree_upto(
    keys: Seq<KeyView>,
    profile: Profile,
    s1: Seq<usize>,
    s2: Seq<usize>,
    k: int,
)
    requires
        is_attribute_order(keys, profile, s1),
        is_attribute_order(keys, profile, s2),
        0 <= k < s1.len(),
    ensures
        forall|j: int| 0 <= j <= k ==> s1[j] == s2[j],
    decreases k,
{
    if k > 0 {
        lemma_orders_agree_upto(keys, profile, s1, s2, k - 1);
    }
    let (a, b) = (s1[k], s2[k]);
    if a != b {
        assert(s1.contains(b));
        let m = choose|m: int| 0 <= m < s1.len() && s1[m] == b;
        assert(s2.contains(a));
        let m2 = choose|m: int| 0 <= m < s2.len() && s2[m] == a;
        if m < k {
            assert(s2[m] == b);
            assert(order_less(keys, profile, s2[m] as int, s2[k] as int));
            lemma_order_strict_total(keys, profile, b as int, b as int, b as int);
        } else if m2 < k {
            assert(s1[m2] == a);
            assert(order_less(keys, profile, s1[m2] as int, s1[k] as int));
            lemma_order_strict_total(keys, profile, a as int, a as int, a as int);
        } else {
            assert(m > k && m2 > k);
            assert(order_less(keys, profile, s1[k] as int, s1[m] as int));
            assert(order_less(keys, profile, s2[k] as int, s2[m2] as int));
            lemma_order_strict_total(keys, profile, a as int, b as int, a as int);
        }
    }
}

proof fn lemma_spreads_monotone(keys: Seq<KeyView>, i: int, j: int)
    requires
        0 <= i <= j <= keys.len(),
    ensures
        spreads_before(keys, i) <= spreads_before(keys, j),
        i < j && keys[i].spread ==> spreads_before(keys, i) + 1 <= spreads_before(keys, j),
    decreases j - i,
{
    if i < j {
        lemma_spreads_monotone(keys, i, j - 1);
        if i == j - 1 {
            assert(spreads_before(keys, j) == spreads_before(keys, i) + if keys[i].spread {
                1nat
            } else {
                0nat
            });
        }
    }
}

/// Orders by block: a strict order between blocks decides.
proof fn lemma_block_decides(keys: Seq<KeyView>, profile: Profile, s: Seq<usize>, p: int, q: int)
    requires
        is_attribute_order(keys, profile, s),
        0 <= p < s.len(),
        0 <= q < s.len(),
        block(keys, profile, s[p] as int) < block(keys, profile, s[q] as int),
    ensures
        p < q,
{
    if q < p {
        assert(order_less(keys, profile, s[q] as int, s[p] as int));
    }
}

/// A `v-bind="object"` spread is a boundary: an attribute whose group is not
/// spread-safe stays on its side of every spread (and spreads keep their
/// order), while an attribute of a spread-safe group is moved before every
/// spread.
pub proof fn lemma_spread_boundary(keys: Seq<KeyView>, profile: Profile, s: Seq<usize>, p: int, q: int)
    requires
        is_attribute_order(keys, profile, s),
        0 <= p < s.len(),
        0 <= q < s.len(),
        keys[s[q] as int].spread,
    ensures
        !movable(keys, profile, s[p] as int) ==> (p < q <==> s[p] < s[q]),
        movable(keys, profile, s[p] as int) ==> p < q,
{
    let (a, b) = (s[p] as int, s[q] as int);
    if a < b {
        lemma_spreads_monotone(keys, a, b);
    } else if b < a {
        lemma_spreads_monotone(keys, b, a);
    }
    if a < b || movable(keys, profile, a) {
        if a != b {
            lemma_block_decides(keys, profile, s, p, q);
        }
    } else if b < a {
        lemma_block_decides(keys, profile, s, q, p);
    } else if p != q {
        lemma_order_strict_total(keys, profile, a, a, a);
        if p < q {
            assert(order_less(keys, profile, a, b));
        } else {
            assert(order_less(keys, profile, b, a));
        }
    }
}

/// Inside one segment, an attribute of a higher-priority group comes first.
pub proof fn lemma_group_priority(keys: Seq<KeyView>, profile: Profile, s: Seq<usize>, p: int, q: int)
    requires
        is_attribute_order(keys, profile, s),
        0 <= p < s.len(),
        0 <= q < s.len(),
        block(keys, profile, s[p] as int) == block(keys, profile, s[q] as int),
        cls(keys, profile, s[p] as int).group < cls(keys, profile, s[q] as int).group,
    ensures
        p < q,
{
    if q < p {
        assert(order_less(keys, profile, s[q] as int, s[p] as int));
    }
}

/// The attributes of one cluster (one key name inside one segment, such as
/// `class` and `:class`) stand next to each other: nothing outside the
/// cluster comes between two of its members.
pub proof fn lemma_cluster_contiguous(keys: Seq<KeyView>, profile: Profile, s: Seq<usize>, p: int, r: int, q: int)
    requires
        is_attribute_order(keys, profile, s),
        0 <= p < r < q < s.len(),
        same_cluster(keys, profile, s[p] as int, s[q] as int),
    ensures
        same_cluster(keys, profile, s[r] as int, s[p] as int),
{
    let (a, x, b) = (s[p] as int, s[r] as int, s[q] as int);
    assert(order_less(keys, profile, a, x));
    assert(order_less(keys, profile, x, b));
    lemma_anchor_shared(keys, profile, a, b);
    lemma_lex_irreflexive(keys[a].name);
    if lex_less(keys[a].name, keys[x].name) && lex_less(keys[x].name, keys[b].name) {
        lemma_lex_transitive(keys[a].name, keys[x].name, keys[b].name);
    }
    if anchor(keys, profile, x) == anchor(keys, profile, a) {
        lemma_anchor_same(keys, profile, x, a);
    }
}

/// Inside a cluster a static `class` comes before a bound `:class`; for any
/// other name the source order is kept.
pub proof fn lemma_cluster_order(keys: Seq<KeyView>, profile: Profile, s: Seq<usize>, p: int, q: int)
    requires
        is_attribute_order(keys, profile, s),
        0 <= p < s.len(),
        0 <= q < s.len(),
        same_cluster(keys, profile, s[p] as int, s[q] as int),
    ensures
        keys[s[p] as int].name == "class"@ && !keys[s[p] as int].bound && keys[s[q] as int].bound ==> p < q,
        keys[s[p] as int].name != "class"@ ==> (p < q <==> s[p] < s[q]),
{
    let (a, b) = (s[p] as int, s[q] as int);
    lemma_anchor_shared(keys, profile, a, b);
    lemma_lex_irreflexive(keys[a].name);
    if p < q {
        assert(order_less(keys, profile, a, b));
    } else if q < p {
        assert(order_less(keys, profile, b, a));
    }
}

/// The attributes in the order `s` lists them.
pub open spec fn reordered(keys: Seq<KeyView>, s: Seq<usize>) -> Seq<KeyView> {
    Seq::new(s.len(), |p: int| keys[s[p] as int])
}

/// `0, 1, …, n - 1`.
pub open spec fn identity_order(n: nat) -> Seq<usize> {
    Seq::new(n, |p: int| p as usize)
}

/// The spreads among `keys[..m]`, as a set of indices.
spec fn spread_set(keys: Seq<KeyView>, m: int) -> Set<int> {
    Set::new(|i: int| 0 <= i < m && keys[i].spread)
}

proof fn lemma_spread_set(keys: Seq<KeyView>, m: int)
    requires
        0 <= m <= keys.len(),
    ensures
        spread_set(keys, m).finite(),
        spread_set(keys, m).len() == spreads_before(keys, m),
    decreases m,
{
    if m == 0 {
        assert(spread_set(keys, 0) =~= Set::empty());
    } else {
        lemma_spread_set(keys, m - 1);
        if keys[m - 1].spread {
            assert(spread_set(keys, m) =~= spread_set(keys, m - 1).insert(m - 1));
        } else {
            assert(spread_set(keys, m) =~= spread_set(keys, m - 1));
        }
    }
}

/// Distinct positions of an attribute order hold distinct attributes.
proof fn lemma_order_distinct(keys: Seq<KeyView>, profile: Profile, s: Seq<usize>, p: int, q: int)
    requires
        is_attribute_order(keys, profile, s),
        0 <= p < s.len(),
        0 <= q < s.len(),
        p != q,
    ensures
        s[p] != s[q],
{
    lemma_order_strict_total(keys, profile, s[p] as int, s[p] as int, s[p] as int);
    if p < q {
        assert(order_less(keys, profile, s[p] as int, s[q] as int));
    } else {
        assert(order_less(keys, profile, s[q] as int, s[p] as int));
    }
}

/// An attribute keeps its block when the attributes are written in attribute order.
proof fn lemma_reordered_block(keys: Seq<KeyView>, profile: Profile, s: Seq<usize>, p: int)
    requires
        is_attribute_order(keys, profile, s),
        0 <= p < s.len(),
    ensures
        block(reordered(keys, s), profile, p) == block(keys, profile, s[p] as int),
{
    let k2 = reordered(keys, s);
    let a = s[p] as int;
    assert(k2[p] == keys[a]);
    if !movable(keys, profile, a) {
        let sa = spread_set(keys, a);
        let sp = spread_set(k2, p);
        let f = |r: int| s[r] as int;
        assert forall|r: int| #[trigger] sp.contains(r) implies sa.contains(f(r)) by {
            assert(k2[r] == keys[s[r] as int]);
            lemma_spread_boundary(keys, profile, s, p, r);
            lemma_order_distinct(keys, profile, s, p, r);
        }
        assert forall|i: int| #[trigger] sa.contains(i) implies exists|r: int| sp.contains(r) && f(r) == i by {
            assert(s.contains(i as usize));
            let r = choose|r: int| 0 <= r < s.len() && s[r] == i as usize;
            assert(k2[r] == keys[i]);
            lemma_spread_boundary(keys, profile, s, p, r);
            assert(sp.contains(r));
        }
        assert(sp.map(f) =~= sa);
        assert forall|r1: int, r2: int| sp.contains(r1) && sp.contains(r2) && #[trigger] f(r1) == #[trigger] f(r2) implies r1 == r2 by {
            if r1 != r2 {
                lemma_order_distinct(keys, profile, s, r1, r2);
            }
        }
        assert(vstd::relations::injective_on(f, sp));
        lemma_spread_set(keys, a);
        lemma_spread_set(k2, p);
        vstd::set_lib::lemma_map_size(sp, sa, f);
    }
}

/// Two attributes in one cluster stay in one cluster when the attributes are
/// written in attribute order, and the other way round.
proof fn lemma_reordered_cluster(keys: Seq<KeyView>, profile: Profile, s: Seq<usize>, p: int, q: int)
    requires
        is_attribute_order(keys, profile, s),
        0 <= p < s.len(),
        0 <= q < s.len(),
    ensures
        same_cluster(reordered(keys, s), profile, p, q) == same_cluster(keys, profile, s[p] as int, s[q] as int),
{
    lemma_reordered_block(keys, profile, s, p);
    lemma_reordered_block(keys, profile, s, q);
}

/// The attribute order is stable: attributes already written in attribute
/// order stay where they are, so ordering a tag a second time changes nothing.
pub proof fn lemma_attribute_order_stable(keys: Seq<KeyView>, profile: Profile, s: Seq<usize>)
    requires
        is_attribute_order(keys, profile, s),
        keys.len() <= usize::MAX,
    ensures
        is_attribute_order(reordered(keys, s), profile, identity_order(s.len())),
{
    let k2 = reordered(keys, s);
    let id = identity_order(s.len());
    assert forall|i: usize| i < k2.len() implies #[trigger] id.contains(i) by {
        assert(id[i as int] == i);
    }
    assert forall|p: int, q: int| 0 <= p < q < id.len() implies order_less(k2, profile, #[trigger] id[p] as int, #[trigger] id[q] as int) by {
        assert(id[p] as int == p && id[q] as int == q);
        lemma_stable_pair(keys, profile, s, p, q);
    }
}

proof fn lemma_stable_pair(keys: Seq<KeyView>, profile: Profile, s: Seq<usize>, p: int, q: int)
    requires
        is_attribute_order(keys, profile, s),
        0 <= p < q < s.len(),
    ensures
        order_less(reordered(keys, s), profile, p, q),
{
    let k2 = reordered(keys, s);
    let (a, b) = (s[p] as int, s[q] as int);
    assert(k2[p] == keys[a] && k2[q] == keys[b]);
    assert(order_less(keys, profile, a, b));
    lemma_reordered_block(keys, profile, s, p);
    lemma_reordered_block(keys, profile, s, q);
    lemma_anchor_from(k2, profile, p, 0);
    lemma_anchor_from(k2, profile, q, 0);
    let (x, y) = (anchor(k2, profile, p), anchor(k2, profile, q));
    lemma_reordered_cluster(keys, profile, s, x, p);
    lemma_reordered_cluster(keys, profile, s, y, q);
    lemma_reordered_cluster(keys, profile, s, p, q);
    lemma_anchor_shared(keys, profile, s[x] as int, a);
    lemma_anchor_shared(keys, profile, s[y] as int, b);
    lemma_lex_irreflexive(keys[a].name);
    lemma_lex_irreflexive(keys[b].name);
    if anchor(keys, profile, a) == anchor(keys, profile, b) {
        lemma_anchor_same(keys, profile, a, b);
        lemma_anchor_shared(k2, profile, p, q);
    } else if block(keys, profile, a) == block(keys, profile, b) && cls(keys, profile, a).group == cls(keys, profile, b).group
        && sort_tie(keys, profile, a, b) {
        if y < x {
            assert(order_less(keys, profile, s[y] as int, s[x] as int));
            assert(keys[s[y] as int].name == keys[b].name);
            assert(keys[s[x] as int].name == keys[a].name);
        }
        if x == y {
            lemma_anchor_same(k2, profile, p, q);
        }
    }
}

/// `lex_less` is `str`'s order: `a` is a proper prefix of `b`, or at the
/// first position where they differ `a` holds the smaller character.
pub proof fn lemma_lex_less_meaning(a: Seq<char>, b: Seq<char>)
    ensures
        lex_less(a, b) <==> ((a.len() < b.len() && b.take(a.len() as int) == a) || exists|i: int|
            0 <= i < a.len() && i < b.len() && a.take(i) == b.take(i) && #[trigger] a[i] < b[i]),
    decreases a.len(),
{
    if a.len() == 0 {
        assert(b.take(0) =~= a);
    } else if b.len() == 0 {
    } else {
        let (a1, b1) = (a.drop_first(), b.drop_first());
        lemma_lex_less_meaning(a1, b1);
        if a[0] < b[0] {
            assert(a.take(0) =~= b.take(0));
        } else if a[0] == b[0] {
            if a1.len() < b1.len() && b1.take(a1.len() as int) == a1 {
                assert forall|k: int| 0 <= k < a.len() implies #[trigger] b.take(a.len() as int)[k] == a[k] by {
                    if k > 0 {
                        assert(b1.take(a1.len() as int)[k - 1] == a1[k - 1]);
                    }
                }
                assert(b.take(a.len() as int) =~= a);
            }
            if a.len() < b.len() && b.take(a.len() as int) == a {
                assert forall|k: int| 0 <= k < a1.len() implies #[trigger] b1.take(a1.len() as int)[k] == a1[k] by {
                    assert(b.take(a.len() as int)[k + 1] == a[k + 1]);
                }
                assert(b1.take(a1.len() as int) =~= a1);
            }
            if exists|i: int| 0 <= i < a1.len() && i < b1.len() && a1.take(i) == b1.take(i) && #[trigger] a1[i] < b1[i] {
                let i = choose|i: int| 0 <= i < a1.len() && i < b1.len() && a1.take(i) == b1.take(i) && #[trigger] a1[i] < b1[i];
                assert(a.take(i + 1) =~= b.take(i + 1)) by {
                    assert forall|k: int| 0 <= k < i + 1 implies #[trigger] a.take(i + 1)[k] == b.take(i + 1)[k] by {
                        if k > 0 {
                            assert(a1.take(i)[k - 1] == b1.take(i)[k - 1]);
                        }
                    }
                }
                assert(a[i + 1] < b[i + 1]);
            }
            if exists|i: int| 0 <= i < a.len() && i < b.len() && a.take(i) == b.take(i) && #[trigger] a[i] < b[i] {
                let i = choose|i: int| 0 <= i < a.len() && i < b.len() && a.take(i) == b.take(i) && #[trigger] a[i] < b[i];
                assert(i > 0);
                assert(a1.take(i - 1) =~= b1.take(i - 1)) by {
                    assert forall|k: int| 0 <= k < i - 1 implies #[trigger] a1.take(i - 1)[k] == b1.take(i - 1)[k] by {
                        assert(a.take(i)[k + 1] == b.take(i)[k + 1]);
                    }
                }
                assert(a1[i - 1] < b1[i - 1]);
            }
        } else {
            if a.len() < b.len() && b.take(a.len() as int) == a {
                assert(b.take(a.len() as int)[0] == b[0]);
            }
            if exists|i: int| 0 <= i < a.len() && i < b.len() && a.take(i) == b.take(i) && #[trigger] a[i] < b[i] {
                let i = choose|i: int| 0 <= i < a.len() && i < b.len() && a.take(i) == b.take(i) && #[trigger] a[i] < b[i];
                if i > 0 {
                    assert(a.take(i)[0] == b.take(i)[0]);
                }
            }
        }
    }
}

/// Inside one segment, attributes of a group sorted alphabetically are
/// written in the `str` order of their key names.
pub proof fn lemma_alphabetical_group(keys: Seq<KeyView>, profile: Profile, s: Seq<usize>, p: int, q: int)
    requires
        is_attribute_order(keys, profile, s),
        0 <= p < s.len(),
        0 <= q < s.len(),
        block(keys, profile, s[p] as int) == block(keys, profile, s[q] as int),
        cls(keys, profile, s[p] as int).group == cls(keys, profile, s[q] as int).group,
        profile.spec_groups()[cls(keys, profile, s[p] as int).group as int].sort == GroupSort::Alphabetical,
        lex_less(keys[s[p] as int].name, keys[s[q] as int].name),
    ensures
        p < q,
{
    let (a, b) = (s[p] as int, s[q] as int);
    lemma_lex_irreflexive(keys[a].name);
    if q < p {
        assert(order_less(keys, profile, b, a));
        if lex_less(keys[b].name, keys[a].name) {
            lemma_lex_transitive(keys[a].name, keys[b].name, keys[a].name);
        }
    }
}

/// The block `2 * spreads + kind` that a pair `(spreads, kind)` stands for.
pub open spec fn block_code(b: (usize, usize)) -> int {
    2 * (b.0 as int) + if b.1 > 0 {
        1int
    } else {
        0int
    }
}

/// Per-attribute data the comparison reads, computed once.
struct Facts {
    classes: Vec<Classification>,
    blocks: Vec<(usize, usize)>,
    anchors: Vec<usize>,
    ranks: Vec<usize>,
    sorts: Vec<GroupSort>,
}

impl Facts {
    spec fn matches(&self, keys: Seq<KeyView>, profile: Profile) -> bool {
        &&& forall|i: int| 0 <= i < keys.len() ==> (#[trigger] self.blocks@[i]).1 <= 1
        &&& self.classes@.len() == keys.len()
        &&& self.blocks@.len() == keys.len()
        &&& self.anchors@.len() == keys.len()
        &&& self.ranks@.len() == keys.len()
        &&& self.sorts@.len() == keys.len()
        &&& forall|i: int| 0 <= i < keys.len() ==> #[trigger] self.classes@[i] == cls(keys, profile, i)
        &&& forall|i: int| 0 <= i < keys.len() ==> block_code(#[trigger] self.blocks@[i]) == block(keys, profile, i)
        &&& forall|i: int| 0 <= i < keys.len() ==> #[trigger] self.anchors@[i] == anchor(keys, profile, i)
        &&& forall|i: int| 0 <= i < keys.len() ==> #[trigger] self.ranks@[i] == cluster_rank(keys, i)
        &&& forall|i: int|
            0 <= i < keys.len() ==> #[trigger] self.sorts@[i] == profile.spec_groups()[cls(
                keys,
                profile,
                i,
            ).group as int].sort
    }
}

fn spreads_prefix(keys: &[Key], i: usize) -> (r: usize)
    requires
        i <= keys.len(),
    ensures
        r == spreads_before(key_views(keys@), i as int),
        r <= i,
{
    let mut count: usize = 0;
    let mut j: usize = 0;
    while j < i
        invariant
            j <= i <= keys.len(),
            count == spreads_before(key_views(keys@), j as int),
            count <= j,
        decreases i - j,
    {
        if keys[j].spread {
            count += 1;
        }
        j += 1;
    }
    count
}

fn compute_facts(keys: &[Key], profile: &Profile) -> (f: Facts)
    ensures
        f.matches(key_views(keys@), *profile),
        forall|i: int| 0 <= i < keys.len() ==> #[trigger] f.classes@[i].group < profile.spec_groups().len(),
{
    let n = keys.len();
    let mut classes: Vec<Classification> = Vec::new();
    let mut blocks: Vec<(usize, usize)> = Vec::new();
    let mut ranks: Vec<usize> = Vec::new();
    let mut sorts: Vec<GroupSort> = Vec::new();
    let mut i: usize = 0;
    while i < n
        invariant
            i <= n == keys.len(),
            classes@.len() == i,
            blocks@.len() == i,
            ranks@.len() == i,
            sorts@.len() == i,
            forall|j: int| 0 <= j < i ==> #[trigger] classes@[j] == cls(key_views(keys@), *profile, j),
            forall|j: int| 0 <= j < i ==> #[trigger] classes@[j].group < profile.spec_groups().len(),
            forall|j: int| 0 <= j < i ==> block_code(#[trigger] blocks@[j]) == block(key_views(keys@), *profile, j),
            forall|j: int| 0 <= j < i ==> (#[trigger] blocks@[j]).1 <= 1,
            forall|j: int| 0 <= j < i ==> #[trigger] ranks@[j] == cluster_rank(key_views(keys@), j),
            forall|j: int|
                0 <= j < i ==> #[trigger] sorts@[j] == profile.spec_groups()[cls(
                    key_views(keys@),
                    *profile,
                    j,
                ).group as int].sort,
        decreases n - i,
    {
        let c = profile.classify(keys[i].name.as_slice());
        let spreads = spreads_prefix(keys, i);
        let b: (usize, usize) = if keys[i].spread {
            (spreads, 1)
        } else if profile.group_spread_safe(c.group) {
            (0, 0)
        } else {
            (spreads, 0)
        };
        let is_class = crate::text::eq_str(keys[i].name.as_slice(), "class");
        let rank = if is_class && keys[i].bound {
            1
        } else {
            0
        };
        classes.push(c);
        blocks.push(b);
        ranks.push(rank);
        sorts.push(profile.group_sort(c.group));
        i += 1;
    }
    let mut anchors: Vec<usize> = Vec::new();
    let mut i: usize = 0;
    while i < n
        invariant
            i <= n == keys.len(),
            blocks@.len() == n,
            forall|j: int| 0 <= j < n ==> block_code(#[trigger] blocks@[j]) == block(key_views(keys@), *profile, j),
            forall|j: int| 0 <= j < n ==> (#[trigger] blocks@[j]).1 <= 1,
            anchors@.len() == i,
            forall|j: int| 0 <= j < i ==> #[trigger] anchors@[j] == anchor(key_views(keys@), *profile, j),
        decreases n - i,
    {
        let mut j: usize = 0;
        while j < i && !(blocks[j].0 == blocks[i].0 && blocks[j].1 == blocks[i].1 && seq_eq(keys[j].name.as_slice(), keys[i].name.as_slice()))
            invariant
                j <= i < n == keys.len(),
                blocks@.len() == n,
                forall|q: int| 0 <= q < n ==> block_code(#[trigger] blocks@[q]) == block(key_views(keys@), *profile, q),
                forall|q: int| 0 <= q < n ==> (#[trigger] blocks@[q]).1 <= 1,
                anchor_from(key_views(keys@), *profile, i as int, j as int) == anchor(key_views(keys@), *profile, i as int),
            decreases i - j,
        {
            j += 1;
        }
        anchors.push(j);
        i += 1;
    }
    Facts { classes, blocks, anchors, ranks, sorts }
}

/// Exec form of [`order_less`] from precomputed facts.
fn less(keys: &[Key], facts: &Facts, a: usize, b: usize, profile: Ghost<Profile>) -> (r: bool)
    requires
        facts.matches(key_views(keys@), profile@),
        a < keys.len(),
        b < keys.len(),
    ensures
        r == order_less(key_views(keys@), profile@, a as int, b as int),
{
    let (ba, bb) = (facts.blocks[a], facts.blocks[b]);
    if ba.0 != bb.0 || ba.1 != bb.1 {
        return ba.0 < bb.0 || (ba.0 == bb.0 && ba.1 < bb.1);
    }
    let (ga, gb) = (facts.classes[a].group, facts.classes[b].group);
    if ga != gb {
        return ga < gb;
    }
    let (sl, tie) = match facts.sorts[a] {
        GroupSort::Source => (false, true),
        GroupSort::Alphabetical => (
            lex_less_exec(keys[a].name.as_slice(), keys[b].name.as_slice()),
            seq_eq(keys[a].name.as_slice(), keys[b].name.as_slice()),
        ),
        GroupSort::Listed => {
            let (pa, pb) = (facts.classes[a].pattern, facts.classes[b].pattern);
            (pa < pb, pa == pb)
        },
    };
    if sl {
        return true;
    }
    if !tie {
        return false;
    }
    let (aa, ab) = (facts.anchors[a], facts.anchors[b]);
    if aa != ab {
        return aa < ab;
    }
    let (ca, cb) = (facts.ranks[a], facts.ranks[b]);
    if ca != cb {
        return ca < cb;
    }
    a < b
}

/// Returns a permutation of `0..keys.len()` giving the output order.
pub fn attribute_order(keys: &[Key], profile: &Profile) -> (order: Vec<usize>)
    ensures
        is_attribute_order(key_views(keys@), *profile, order@),
        order@ == spec_attribute_order(key_views(keys@), *profile),
{
    let facts = compute_facts(keys, profile);
    let ghost p = *profile;
    let n = keys.len();
    let mut out: Vec<usize> = Vec::new();
    let mut k: usize = 0;
    while k < n
        invariant
            k <= n == keys.len(),
            facts.matches(key_views(keys@), p),
            out@.len() == k,
            forall|q: int| 0 <= q < out@.len() ==> #[trigger] out@[q] < k,
            forall|i: usize| i < k ==> #[trigger] out@.contains(i),
            forall|x: int, y: int|
                0 <= x < y < out@.len() ==> order_less(key_views(keys@), p, #[trigger] out@[x] as int, #[trigger] out@[y] as int),
        decreases n - k,
    {
        let mut pos: usize = 0;
        while pos < out.len() && !less(keys, &facts, k, out[pos], Ghost(p))
            invariant
                k < n == keys.len(),
                facts.matches(key_views(keys@), p),
                pos <= out@.len() == k,
                forall|q: int| 0 <= q < out@.len() ==> #[trigger] out@[q] < k,
                forall|x: int| 0 <= x < pos ==> !order_less(key_views(keys@), p, k as int, #[trigger] out@[x] as int),
            decreases out.len() - pos,
        {
            pos += 1;
        }
        let ghost old_out = out@;
        out.insert(pos, k);
        proof {
            assert(out@ == old_out.subrange(0, pos as int).push(k).add(old_out.subrange(pos as int, old_out.len() as int)));
            assert forall|x: int, y: int| 0 <= x < y < out@.len() implies order_less(
                key_views(keys@),
                p,
                #[trigger] out@[x] as int,
                #[trigger] out@[y] as int,
            ) by {
                if x < pos && y == pos {
                    lemma_order_strict_total(key_views(keys@), p, old_out[x] as int, k as int, k as int);
                } else if x == pos && y > pos {
                    lemma_order_strict_total(key_views(keys@), p, k as int, old_out[pos as int] as int, old_out[y - 1] as int);
                    if y - 1 > pos {
                        assert(order_less(key_views(keys@), p, old_out[pos as int] as int, old_out[y - 1] as int));
                    }
                } else if x < pos && y > pos {
                    assert(out@[y] == old_out[y - 1]);
                } else if x > pos {
                    assert(out@[x] == old_out[x - 1]);
                    assert(out@[y] == old_out[y - 1]);
                }
            }
            assert forall|i: usize| i < k + 1 implies #[trigger] out@.contains(i) by {
                if i == k {
                    assert(out@[pos as int] == k);
                } else {
                    assert(old_out.contains(i));
                    let m = choose|m: int| 0 <= m < old_out.len() && old_out[m] == i;
                    if m < pos {
                        assert(out@[m] == i);
                    } else {
                        assert(out@[m + 1] == i);
                    }
                }
            }
        }
        k += 1;
    }
    proof {
        assert(is_attribute_order(key_views(keys@), p, out@));
        lemma_attribute_order_unique(key_views(keys@), p, out@, spec_attribute_order(key_views(keys@), p));
    }
    out
}

} // verus!
