//! Statistics over the level collections, and the natural order in which they are listed.
use vstd::prelude::*;

verus! {

/// How two names compare in natural order.
#[derive(Debug, Clone, Copy, PartialEq, Eq, Structural)]
pub enum NameOrder {
    Less,
    Equal,
    Greater,
}

/// How `natord::compare` orders two strings: case-sensitively, skipping white space, and
/// comparing runs of decimal digits by their value.
pub uninterp spec fn natural_order(a: Seq<char>, b: Seq<char>) -> NameOrder;

/// Compare two names with `natord::compare`. Trusted: the result is the one that function
/// computes from the two strings alone, named `natural_order`; nothing more of it is stated.
#[verifier::external_body]
fn compare_names(a: &str, b: &str) -> (r: NameOrder)
    ensures
        r == natural_order(a@, b@),
{
    match natord::compare(a, b) {
        std::cmp::Ordering::Less => NameOrder::Less,
        std::cmp::Ordering::Equal => NameOrder::Equal,
        std::cmp::Ordering::Greater => NameOrder::Greater,
    }
}

/// The views of a list of strings.
pub open spec fn string_views(v: Seq<String>) -> Seq<Seq<char>> {
    v.map_values(|s: String| s@)
}

/// `s` with `x` inserted after the last name that does not come after it: `x` moves in front of
/// the trailing names that come after it.
pub open spec fn insert_name(s: Seq<Seq<char>>, x: Seq<char>) -> Seq<Seq<char>>
    decreases s.len(),
{
    if s.len() > 0 && natural_order(s.last(), x) == NameOrder::Greater {
        insert_name(s.drop_last(), x).push(s.last())
    } else {
        s.push(x)
    }
}

/// The names sorted by natural order, stably: each name in turn is inserted into the sorted
/// list of the names before it.
pub open spec fn natural_sort(s: Seq<Seq<char>>) -> Seq<Seq<char>>
    decreases s.len(),
{
    if s.len() == 0 {
        Seq::empty()
    } else {
        insert_name(natural_sort(s.drop_last()), s.last())
    }
}

/// Inserting a name before the names from `j` on, all of which come after it, while the name
/// before them does not.
proof fn lemma_insert_name_at(s: Seq<Seq<char>>, x: Seq<char>, j: int)
    requires
        0 <= j <= s.len(),
        forall|k: int| j <= k < s.len() ==> natural_order(#[trigger] s[k], x) == NameOrder::Greater,
        j == 0 || natural_order(s[j - 1], x) != NameOrder::Greater,
    ensures
        insert_name(s, x) == s.take(j).push(x) + s.skip(j),
    decreases s.len() - j,
{
    if j == s.len() {
        assert(s.take(j) =~= s);
        assert(s.take(j).push(x) + s.skip(j) =~= s.push(x));
    } else {
        let t = s.drop_last();
        assert(natural_order(s.last(), x) == NameOrder::Greater);
        assert forall|k: int| j <= k < t.len() implies natural_order(#[trigger] t[k], x)
            == NameOrder::Greater by {
            assert(t[k] == s[k]);
        }
        if j > 0 {
            assert(t[j - 1] == s[j - 1]);
        }
        lemma_insert_name_at(t, x, j);
        assert(t.take(j) =~= s.take(j));
        assert(t.take(j).push(x) + t.skip(j) + seq![s.last()] =~= s.take(j).push(x) + s.skip(j));
    }
}

/// Inserting a name adds it to the names once.
proof fn lemma_insert_name_multiset(s: Seq<Seq<char>>, x: Seq<char>)
    ensures
        insert_name(s, x).to_multiset() == s.to_multiset().insert(x),
    decreases s.len(),
{
    broadcast use vstd::seq_lib::group_to_multiset_ensures;

    if s.len() > 0 && natural_order(s.last(), x) == NameOrder::Greater {
        lemma_insert_name_multiset(s.drop_last(), x);
        assert(s.drop_last().push(s.last()) =~= s);
    }
}

/// Sorting keeps the names: the result holds each name as often as the input.
pub proof fn lemma_natural_sort_permutes(s: Seq<Seq<char>>)
    ensures
        natural_sort(s).to_multiset() == s.to_multiset(),
    decreases s.len(),
{
    broadcast use vstd::seq_lib::group_to_multiset_ensures;

    if s.len() > 0 {
        lemma_natural_sort_permutes(s.drop_last());
        lemma_insert_name_multiset(natural_sort(s.drop_last()), s.last());
        assert(s.drop_last().push(s.last()) =~= s);
    }
}

/// Natural order behaves as an order on the names of `s`: a name that comes after another does
/// not come before it, and a name that does not come after a second one, which does not come
/// after a third, does not come after the third.
pub open spec fn orders_names(s: Seq<Seq<char>>) -> bool {
    &&& forall|a: Seq<char>, b: Seq<char>|
        s.contains(a) && s.contains(b) && natural_order(a, b) == NameOrder::Greater
            ==> natural_order(b, a) != NameOrder::Greater
    &&& forall|a: Seq<char>, b: Seq<char>, c: Seq<char>|
        s.contains(a) && s.contains(b) && s.contains(c) && natural_order(a, b)
            != NameOrder::Greater && natural_order(b, c) != NameOrder::Greater ==> natural_order(
            a,
            c,
        ) != NameOrder::Greater
}

/// No name comes after a name that follows it.
pub open spec fn names_sorted(s: Seq<Seq<char>>) -> bool {
    forall|i: int, j: int|
        0 <= i < j < s.len() ==> natural_order(#[trigger] s[i], #[trigger] s[j]) != NameOrder::Greater
}

/// Inserting a name into sorted names, all of them names of `all` on which natural order
/// behaves as an order, keeps them sorted.
proof fn lemma_insert_name_sorted(all: Seq<Seq<char>>, s: Seq<Seq<char>>, x: Seq<char>)
    requires
        orders_names(all),
        names_sorted(s),
        forall|k: int| 0 <= k < s.len() ==> all.contains(#[trigger] s[k]),
        all.contains(x),
    ensures
        names_sorted(insert_name(s, x)),
    decreases s.len(),
{
    broadcast use vstd::seq_lib::group_to_multiset_ensures;

    if s.len() > 0 && natural_order(s.last(), x) == NameOrder::Greater {
        let t = s.drop_last();
        let y = s.last();
        assert(names_sorted(t)) by {
            assert forall|i: int, j: int| 0 <= i < j < t.len() implies natural_order(
                #[trigger] t[i],
                #[trigger] t[j],
            ) != NameOrder::Greater by {
                assert(t[i] == s[i] && t[j] == s[j]);
            }
        }
        assert forall|k: int| 0 <= k < t.len() implies all.contains(#[trigger] t[k]) by {
            assert(t[k] == s[k]);
        }
        lemma_insert_name_sorted(all, t, x);
        let u = insert_name(t, x);
        lemma_insert_name_multiset(t, x);
        assert(all.contains(y)) by {
            assert(y == s[s.len() - 1]);
        }
        assert(natural_order(x, y) != NameOrder::Greater);
        assert forall|i: int, j: int| 0 <= i < j < u.push(y).len() implies natural_order(
            #[trigger] u.push(y)[i],
            #[trigger] u.push(y)[j],
        ) != NameOrder::Greater by {
            if j == u.len() {
                let a = u[i];
                assert(u.contains(a));
                assert(u.to_multiset().count(a) > 0);
                assert(t.to_multiset().insert(x).count(a) > 0);
                if a == x {
                } else {
                    assert(t.to_multiset().count(a) > 0);
                    assert(t.contains(a));
                    let k = choose|k: int| 0 <= k < t.len() && t[k] == a;
                    assert(s[k] == a && s[s.len() - 1] == y);
                    assert(natural_order(s[k], s[s.len() - 1]) != NameOrder::Greater);
                }
                assert(u.push(y)[j] == y);
            } else {
                assert(u.push(y)[i] == u[i] && u.push(y)[j] == u[j]);
            }
        }
    } else {
        assert forall|i: int, j: int| 0 <= i < j < s.push(x).len() implies natural_order(
            #[trigger] s.push(x)[i],
            #[trigger] s.push(x)[j],
        ) != NameOrder::Greater by {
            if j == s.len() {
                assert(s.push(x)[j] == x);
                assert(s.push(x)[i] == s[i]);
                let last = s[s.len() - 1];
                assert(all.contains(s[i]) && all.contains(last));
                if i < s.len() - 1 {
                    assert(natural_order(s[i], s[s.len() - 1]) != NameOrder::Greater);
                }
                assert(natural_order(last, x) != NameOrder::Greater);
            } else {
                assert(s.push(x)[i] == s[i] && s.push(x)[j] == s[j]);
            }
        }
    }
}

/// Natural sorting gives names in natural order, provided natural order behaves as an order on
/// the names given.
pub proof fn lemma_natural_sort_sorted(s: Seq<Seq<char>>)
    requires
        orders_names(s),
    ensures
        names_sorted(natural_sort(s)),
    decreases s.len(),
{
    broadcast use vstd::seq_lib::group_to_multiset_ensures;

    if s.len() > 0 {
        let t = s.drop_last();
        assert(orders_names(t)) by {
            assert forall|a: Seq<char>| t.contains(a) implies s.contains(a) by {
                let k = choose|k: int| 0 <= k < t.len() && t[k] == a;
                assert(s[k] == a);
            }
        }
        lemma_natural_sort_sorted(t);
        lemma_natural_sort_permutes(t);
        let r = natural_sort(t);
        assert forall|k: int| 0 <= k < r.len() implies s.contains(#[trigger] r[k]) by {
            assert(r.contains(r[k]));
            assert(r.to_multiset().count(r[k]) > 0);
            assert(t.to_multiset().count(r[k]) > 0);
            assert(t.contains(r[k]));
            let kk = choose|kk: int| 0 <= kk < t.len() && t[kk] == r[k];
            assert(s[kk] == r[k]);
        }
        assert(s.contains(s.last())) by {
            assert(s[s.len() - 1] == s.last());
        }
        lemma_insert_name_sorted(s, r, s.last());
    }
}

/// Sort names in natural order (so that "9" comes before "10"), keeping names that compare
/// equal in the order they were given.
pub fn sort_names(names: &Vec<String>) -> (r: Vec<String>)
    ensures
        string_views(r@) == natural_sort(string_views(names@)),
        string_views(r@).to_multiset() == string_views(names@).to_multiset(),
{
    let mut r: Vec<String> = Vec::new();
    let n = names.len();
    for i in 0..n
        invariant
            n == names@.len(),
            string_views(r@) == natural_sort(string_views(names@).take(i as int)),
    {
        let x = names[i].clone();
        let ghost s = string_views(r@);
        let mut j = r.len();
        while j > 0 && compare_names(r[j - 1].as_str(), x.as_str()) == NameOrder::Greater
            invariant
                j <= r@.len(),
                s == string_views(r@),
                x@ == names@[i as int]@,
                forall|k: int| j <= k < s.len() ==> natural_order(#[trigger] s[k], x@)
                    == NameOrder::Greater,
            decreases j,
        {
            j = j - 1;
        }
        proof {
            lemma_insert_name_at(s, x@, j as int);
            assert(string_views(names@).take(i + 1).drop_last() =~= string_views(names@).take(
                i as int,
            ));
        }
        r.insert(j, x);
        assert(string_views(r@) =~= s.take(j as int).push(x@) + s.skip(j as int));
    }
    assert(string_views(names@).take(n as int) =~= string_views(names@));
    proof {
        lemma_natural_sort_permutes(string_views(names@));
    }
    r
}

/// What is known of one collection: its file name, its full name, and how many of its levels
/// there are and have been solved.
#[derive(Debug, Clone)]
pub struct CollectionStats {
    pub short_name: String,
    pub name: String,
    pub total_levels: usize,
    pub solved_levels: usize,
}

impl CollectionStats {
    /// Have all levels been solved?
    pub fn solved(&self) -> (r: bool)
        ensures
            r == (self.total_levels == self.solved_levels),
    {
        self.total_levels == self.solved_levels
    }

    /// Has any level been solved?
    pub fn started(&self) -> (r: bool)
        ensures
            r == (self.solved_levels > 0),
    {
        self.solved_levels > 0
    }
}

/// Totals over all collections.
#[derive(Debug, Clone, Copy, PartialEq, Eq, Structural)]
pub struct StatsSummary {
    pub collections: usize,
    pub levels: usize,
    pub finished_collections: usize,
    pub finished_levels: usize,
    pub started_collections: usize,
}

/// The number of levels in all collections.
pub open spec fn sum_total(s: Seq<CollectionStats>) -> int
    decreases s.len(),
{
    if s.len() == 0 {
        0
    } else {
        sum_total(s.drop_last()) + s.last().total_levels
    }
}

/// The number of solved levels in all collections.
pub open spec fn sum_solved(s: Seq<CollectionStats>) -> int
    decreases s.len(),
{
    if s.len() == 0 {
        0
    } else {
        sum_solved(s.drop_last()) + s.last().solved_levels
    }
}

/// The number of collections of which all levels have been solved.
pub open spec fn count_solved(s: Seq<CollectionStats>) -> int
    decreases s.len(),
{
    if s.len() == 0 {
        0
    } else {
        count_solved(s.drop_last()) + if s.last().total_levels == s.last().solved_levels {
            1int
        } else {
            0
        }
    }
}

/// The number of collections that have been started and not finished.
pub open spec fn count_started(s: Seq<CollectionStats>) -> int
    decreases s.len(),
{
    if s.len() == 0 {
        0
    } else {
        count_started(s.drop_last()) + if s.last().solved_levels > 0 && s.last().total_levels
            != s.last().solved_levels {
            1int
        } else {
            0
        }
    }
}

proof fn lemma_sums_nonnegative(s: Seq<CollectionStats>)
    ensures
        sum_total(s) >= 0,
        sum_solved(s) >= 0,
        0 <= count_solved(s) <= s.len(),
        0 <= count_started(s) <= s.len(),
    decreases s.len(),
{
    if s.len() > 0 {
        lemma_sums_nonnegative(s.drop_last());
    }
}

proof fn lemma_sums_grow(s: Seq<CollectionStats>, i: int)
    requires
        0 <= i <= s.len(),
    ensures
        sum_total(s.take(i)) <= sum_total(s),
        sum_solved(s.take(i)) <= sum_solved(s),
    decreases s.len() - i,
{
    if i < s.len() {
        lemma_sums_grow(s, i + 1);
        assert(s.take(i + 1).drop_last() =~= s.take(i));
    } else {
        assert(s.take(i) =~= s);
    }
}

/// Add up the statistics of all collections: how many collections and levels there are, how
/// many of them are finished, and how many collections are started but not finished.
pub fn summarize(stats: &[CollectionStats]) -> (r: StatsSummary)
    requires
        sum_total(stats@) <= usize::MAX,
        sum_solved(stats@) <= usize::MAX,
    ensures
        r.collections == stats@.len(),
        r.levels == sum_total(stats@),
        r.finished_levels == sum_solved(stats@),
        r.finished_collections == count_solved(stats@),
        r.started_collections == count_started(stats@),
{
    let mut r = StatsSummary {
        collections: stats.len(),
        levels: 0,
        finished_collections: 0,
        finished_levels: 0,
        started_collections: 0,
    };
    let n = stats.len();
    for i in 0..n
        invariant
            n == stats@.len(),
            r.collections == n,
            sum_total(stats@) <= usize::MAX,
            sum_solved(stats@) <= usize::MAX,
            r.levels == sum_total(stats@.take(i as int)),
            r.finished_levels == sum_solved(stats@.take(i as int)),
            r.finished_collections == count_solved(stats@.take(i as int)),
            r.started_collections == count_started(stats@.take(i as int)),
            r.finished_collections <= i,
            r.started_collections <= i,
    {
        proof {
            lemma_sums_grow(stats@, i + 1);
            lemma_sums_nonnegative(stats@.take(i as int));
            assert(stats@.take(i + 1).drop_last() =~= stats@.take(i as int));
        }
        let c = &stats[i];
        r.levels = r.levels + c.total_levels;
        r.finished_levels = r.finished_levels + c.solved_levels;
        if c.solved() {
            r.finished_collections = r.finished_collections + 1;
        } else if c.started() {
            r.started_collections = r.started_collections + 1;
        }
    }
    assert(stats@.take(n as int) =~= stats@);
    r
}

} // verus!
