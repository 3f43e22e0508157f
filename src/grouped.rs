//! Segmentation of the key-value stream into the root section, the legal
//! departments with their usage locations, and the trailing annotation.
use vstd::prelude::*;

use crate::key_value::{KeyValuePair, KeyValueRepr};
use crate::text::{join, join_strings, str_eq, views};
use crate::util::opt_view;

verus! {

/// The key that opens a legal department section.
pub open spec fn is_department_key(k: Seq<char>) -> bool {
    k == "Abteilung:"@
}

/// The key that opens a usage location.
pub open spec fn is_location_key(k: Seq<char>) -> bool {
    k == "Nutzungsort Lfd. Nr.:"@
}

/// The keys of a sequence of pairs.
pub open spec fn keys_of(ps: Seq<KeyValuePair>) -> Seq<Seq<char>> {
    ps.map_values(|p: KeyValuePair| p.0@)
}

/// How many pairs at the end of `ps` have no values.
pub open spec fn trailing_empty(ps: Seq<KeyValuePair>) -> nat
    decreases ps.len(),
{
    if ps.len() == 0 {
        0
    } else if ps.last().1@.len() == 0 {
        1 + trailing_empty(ps.drop_last())
    } else {
        0
    }
}

/// The pairs before the trailing pairs without values.
pub open spec fn body(ps: Seq<KeyValuePair>) -> Seq<KeyValuePair> {
    ps.subrange(0, ps.len() - trailing_empty(ps))
}

/// The annotation: the keys of the trailing pairs without values, joined by
/// a space, if there are any.
pub open spec fn annotation_of(ps: Seq<KeyValuePair>) -> Option<Seq<char>> {
    let t = trailing_empty(ps);
    if t == 0 {
        None
    } else {
        Some(join(keys_of(ps.subrange(ps.len() - t, ps.len() as int)), " "@))
    }
}

/// The index of the first department key in `ps`, or its length.
pub open spec fn until_department(ps: Seq<KeyValuePair>) -> nat
    decreases ps.len(),
{
    if ps.len() == 0 {
        0
    } else if is_department_key(ps[0].0@) {
        0
    } else {
        1 + until_department(ps.drop_first())
    }
}

/// Grouping of the pairs of one department into usage locations: `done`
/// holds the finished locations, `cur` the one being filled. A location key
/// closes a non-empty `cur`; the last `cur` is always kept.
pub open spec fn locations_from(
    items: Seq<KeyValuePair>,
    done: Seq<Seq<KeyValuePair>>,
    cur: Seq<KeyValuePair>,
) -> Seq<Seq<KeyValuePair>>
    decreases items.len(),
{
    if items.len() == 0 {
        done.push(cur)
    } else if is_location_key(items[0].0@) && cur.len() > 0 {
        locations_from(items.drop_first(), done.push(cur), seq![items[0]])
    } else {
        locations_from(items.drop_first(), done, cur.push(items[0]))
    }
}

/// The usage locations of one department's pairs.
pub open spec fn locations(items: Seq<KeyValuePair>) -> Seq<Seq<KeyValuePair>> {
    locations_from(items, Seq::empty(), Seq::empty())
}

/// The departments of a sequence that is empty or starts with a department
/// key: the label is the joined values of the key's pair, the locations are
/// made of the pairs up to the next department key.
pub open spec fn departments_of(rest: Seq<KeyValuePair>) -> Seq<(Seq<char>, Seq<Seq<KeyValuePair>>)>
    decreases rest.len(),
    via departments_of_decreases
{
    if rest.len() == 0 {
        Seq::empty()
    } else {
        let n = until_department(rest.drop_first()) as int;
        let label = join(views(rest[0].1@), Seq::empty());
        let items = rest.subrange(1, 1 + n);
        seq![(label, locations(items))] + departments_of(rest.subrange(1 + n, rest.len() as int))
    }
}

#[via_fn]
proof fn departments_of_decreases(rest: Seq<KeyValuePair>) {
    if rest.len() > 0 {
        lemma_until_department_bound(rest.drop_first());
    }
}

/// The view of a department as built by the segmenter.
pub open spec fn department_view(d: (String, Vec<Vec<KeyValuePair>>)) -> (Seq<char>, Seq<Seq<KeyValuePair>>) {
    (d.0@, d.1@.map_values(|l: Vec<KeyValuePair>| l@))
}

/// The views of departments as built by the segmenter.
pub open spec fn department_views(ds: Seq<(String, Vec<Vec<KeyValuePair>>)>) -> Seq<(Seq<char>, Seq<Seq<KeyValuePair>>)> {
    ds.map_values(|d: (String, Vec<Vec<KeyValuePair>>)| department_view(d))
}

/// A key-value stream segmented into its sections.
#[derive(Debug)]
pub struct GroupedKeyValueRepr {
    pub root: Vec<KeyValuePair>,
    pub departments: Vec<(String, Vec<Vec<KeyValuePair>>)>,
    pub annotation: Option<String>,
}

proof fn lemma_until_department_bound(ps: Seq<KeyValuePair>)
    ensures
        until_department(ps) <= ps.len(),
        until_department(ps) < ps.len() ==> is_department_key(ps[until_department(ps) as int].0@),
    decreases ps.len(),
{
    if ps.len() > 0 && !is_department_key(ps[0].0@) {
        lemma_until_department_bound(ps.drop_first());
    }
}

proof fn lemma_trailing_bound(ps: Seq<KeyValuePair>)
    ensures
        trailing_empty(ps) <= ps.len(),
        trailing_empty(ps) < ps.len() ==> ps[ps.len() - trailing_empty(ps) - 1].1@.len() > 0,
        forall|i: int| ps.len() - trailing_empty(ps) <= i < ps.len() ==> #[trigger] ps[i].1@.len() == 0,
    decreases ps.len(),
{
    if ps.len() > 0 && ps.last().1@.len() == 0 {
        lemma_trailing_bound(ps.drop_last());
        assert forall|i: int| ps.len() - trailing_empty(ps) <= i < ps.len() implies #[trigger] ps[i].1@.len() == 0 by {
            if i < ps.len() - 1 {
                assert(ps[i] == ps.drop_last()[i]);
            }
        }
    }
}

proof fn lemma_reverse_pop<T>(s: Seq<T>)
    requires
        s.len() > 0,
    ensures
        s.reverse().last() == s[0],
        s.reverse().drop_last() == s.drop_first().reverse(),
{
    assert(s.reverse().drop_last() =~= s.drop_first().reverse());
}

/// Reverses a vector by moving its elements.
fn reversed<T>(v: Vec<T>) -> (r: Vec<T>)
    ensures
        r@ == v@.reverse(),
{
    let mut v = v;
    let ghost orig = v@;
    let mut r: Vec<T> = Vec::new();
    while v.len() > 0
        invariant
            orig.len() == v@.len() + r@.len(),
            v@ == orig.subrange(0, v@.len() as int),
            r@ == orig.subrange(v@.len() as int, orig.len() as int).reverse(),
        decreases v@.len(),
    {
        let x = v.pop().unwrap();
        r.push(x);
        assert(r@ =~= orig.subrange(v@.len() as int, orig.len() as int).reverse());
        assert(v@ =~= orig.subrange(0, v@.len() as int));
    }
    assert(orig.subrange(0, orig.len() as int) == orig);
    r
}

/// Whether the next pair of the stack (its last element) opens a department.
fn next_is_department(stack: &Vec<KeyValuePair>) -> (r: bool)
    requires
        stack@.len() > 0,
    ensures
        r == is_department_key(stack@.last().0@),
{
    let n = stack.len();
    str_eq(stack[n - 1].0.as_str(), "Abteilung:")
}

/// Whether the next pair of the stack (its last element) opens a usage location.
fn next_is_location(stack: &Vec<KeyValuePair>) -> (r: bool)
    requires
        stack@.len() > 0,
    ensures
        r == is_location_key(stack@.last().0@),
{
    let n = stack.len();
    str_eq(stack[n - 1].0.as_str(), "Nutzungsort Lfd. Nr.:")
}

proof fn lemma_until_step(s: Seq<KeyValuePair>)
    requires
        s.len() > 0,
        !is_department_key(s[0].0@),
    ensures
        until_department(s) == 1 + until_department(s.drop_first()),
        s.subrange(0, until_department(s) as int).drop_first()
            == s.drop_first().subrange(0, until_department(s.drop_first()) as int),
        s.subrange(until_department(s) as int, s.len() as int)
            == s.drop_first().subrange(until_department(s.drop_first()) as int, s.drop_first().len() as int),
        s.subrange(0, until_department(s) as int)[0] == s[0],
{
    lemma_until_department_bound(s.drop_first());
    assert(s.subrange(0, until_department(s) as int).drop_first()
        =~= s.drop_first().subrange(0, until_department(s.drop_first()) as int));
    assert(s.subrange(until_department(s) as int, s.len() as int)
        =~= s.drop_first().subrange(until_department(s.drop_first()) as int, s.drop_first().len() as int));
}

/// Groups the pairs of one department into usage locations. The stack holds
/// the remaining pairs in reverse; pairs are taken up to the next department
/// key or the end.
fn group_usage_locations(stack: &mut Vec<KeyValuePair>) -> (r: Vec<Vec<KeyValuePair>>)
    ensures
        ({
            let rest = old(stack)@.reverse();
            let n = until_department(rest);
            &&& final(stack)@ == rest.subrange(n as int, rest.len() as int).reverse()
            &&& r@.map_values(|l: Vec<KeyValuePair>| l@) == locations(rest.subrange(0, n as int))
        }),
{
    let ghost rest0 = stack@.reverse();
    let ghost n0 = until_department(rest0);
    let mut usage_locations: Vec<Vec<KeyValuePair>> = Vec::new();
    let mut usage_location: Vec<KeyValuePair> = Vec::new();
    proof {
        lemma_until_department_bound(rest0);
        assert(stack@.reverse().reverse() =~= stack@);
        assert(usage_locations@.map_values(|l: Vec<KeyValuePair>| l@) =~= Seq::<Seq<KeyValuePair>>::empty());
    }
    while stack.len() > 0 && !next_is_department(stack)
        invariant
            until_department(stack@.reverse()) <= stack@.len(),
            ({
                let rest = stack@.reverse();
                let n = until_department(rest);
                &&& rest.subrange(n as int, rest.len() as int) == rest0.subrange(n0 as int, rest0.len() as int)
                &&& locations_from(rest.subrange(0, n as int), usage_locations@.map_values(|l: Vec<KeyValuePair>| l@), usage_location@)
                    == locations(rest0.subrange(0, n0 as int))
            }),
        decreases stack@.len(),
    {
        let ghost rest = stack@.reverse();
        let ghost old_done = usage_locations@.map_values(|l: Vec<KeyValuePair>| l@);
        let ghost old_cur = usage_location@;
        proof {
            lemma_reverse_pop(rest);
            assert(rest.reverse() =~= stack@);
            lemma_until_step(rest);
        }
        if next_is_location(stack) && usage_location.len() > 0 {
            usage_locations.push(usage_location);
            usage_location = Vec::new();
            assert(usage_locations@.map_values(|l: Vec<KeyValuePair>| l@) =~= old_done.push(old_cur));
        }
        let next = stack.pop().unwrap();
        usage_location.push(next);
        proof {
            assert(next == rest[0]);
            assert(stack@ == rest.drop_first().reverse());
            assert(stack@.reverse() =~= rest.drop_first());
            lemma_until_department_bound(stack@.reverse());
            lemma_until_department_bound(rest);
            let items = rest.subrange(0, until_department(rest) as int);
            assert(items.len() > 0);
            assert(items[0] == next);
            if is_location_key(next.0@) && old_cur.len() > 0 {
                assert(usage_location@ =~= seq![next]);
            } else {
                assert(usage_location@ =~= old_cur.push(next));
            }
        }
    }
    proof {
        let rest = stack@.reverse();
        lemma_until_department_bound(rest);
        assert(until_department(rest) == 0);
        assert(rest.subrange(0, 0) =~= Seq::<KeyValuePair>::empty());
        assert(rest.subrange(0, rest.len() as int) == rest);
        assert(rest.reverse() =~= stack@);
    }
    let ghost before = usage_locations@.map_values(|l: Vec<KeyValuePair>| l@);
    usage_locations.push(usage_location);
    assert(usage_locations@.map_values(|l: Vec<KeyValuePair>| l@) =~= before.push(usage_locations@.last()@));
    usage_locations
}

/// Groups the departments of the remaining pairs, held in reverse on the
/// stack, which start with a department key (or are none).
fn group_departments(stack: &mut Vec<KeyValuePair>) -> (r: Vec<(String, Vec<Vec<KeyValuePair>>)>)
    requires
        old(stack)@.len() > 0 ==> is_department_key(old(stack)@.reverse()[0].0@),
    ensures
        final(stack)@.len() == 0,
        r@.map_values(|d: (String, Vec<Vec<KeyValuePair>>)| department_view(d))
            == departments_of(old(stack)@.reverse()),
{
    let ghost rest0 = stack@.reverse();
    let mut departments: Vec<(String, Vec<Vec<KeyValuePair>>)> = Vec::new();
    assert(departments@.map_values(|d: (String, Vec<Vec<KeyValuePair>>)| department_view(d))
        =~= Seq::<(Seq<char>, Seq<Seq<KeyValuePair>>)>::empty());
    while stack.len() > 0
        invariant
            stack@.len() > 0 ==> is_department_key(stack@.reverse()[0].0@),
            departments@.map_values(|d: (String, Vec<Vec<KeyValuePair>>)| department_view(d))
                + departments_of(stack@.reverse()) == departments_of(rest0),
        decreases stack@.len(),
    {
        let ghost rest = stack@.reverse();
        let ghost done = departments@.map_values(|d: (String, Vec<Vec<KeyValuePair>>)| department_view(d));
        proof {
            lemma_reverse_pop(rest);
        }
        let next = stack.pop().unwrap();
        assert(next == rest[0]);
        let label = join_strings(&next.1, "");
        proof {
            reveal_strlit("");
            assert(""@ =~= Seq::<char>::empty());
            assert(stack@.reverse() =~= rest.drop_first());
        }
        let ghost tail = rest.drop_first();
        let locations = group_usage_locations(stack);
        proof {
            let n = until_department(tail) as int;
            lemma_until_department_bound(tail);
            assert(stack@.reverse() =~= tail.subrange(n, tail.len() as int));
            assert(tail.subrange(0, n as int) =~= rest.subrange(1, 1 + n));
            assert(tail.subrange(n as int, tail.len() as int) =~= rest.subrange(1 + n, rest.len() as int));
        }
        departments.push((label, locations));
        proof {
            let now = departments@.map_values(|d: (String, Vec<Vec<KeyValuePair>>)| department_view(d));
            assert(now =~= done.push(department_view(departments@.last())));
            let rest_after = stack@.reverse();
            assert(departments_of(rest) == seq![department_view(departments@.last())] + departments_of(rest_after));
            assert(now + departments_of(rest_after) =~= done + departments_of(rest));
        }
    }
    proof {
        assert(stack@.reverse() =~= Seq::<KeyValuePair>::empty());
        let done = departments@.map_values(|d: (String, Vec<Vec<KeyValuePair>>)| department_view(d));
        assert(done + departments_of(stack@.reverse()) =~= done);
    }
    departments
}

/// The root section: the pairs of the body before the first department key.
pub open spec fn root_of(ps: Seq<KeyValuePair>) -> Seq<KeyValuePair> {
    body(ps).subrange(0, until_department(body(ps)) as int)
}

/// The departments of the body, from its first department key on.
pub open spec fn departments_in(ps: Seq<KeyValuePair>) -> Seq<(Seq<char>, Seq<Seq<KeyValuePair>>)> {
    let b = body(ps);
    departments_of(b.subrange(until_department(b) as int, b.len() as int))
}

proof fn lemma_trailing_exact(ps: Seq<KeyValuePair>, k: int)
    requires
        0 <= k <= ps.len(),
        forall|i: int| k <= i < ps.len() ==> #[trigger] ps[i].1@.len() == 0,
        k > 0 ==> ps[k - 1].1@.len() > 0,
    ensures
        trailing_empty(ps) == ps.len() - k,
    decreases ps.len(),
{
    if ps.len() > k {
        let d = ps.drop_last();
        assert forall|i: int| k <= i < d.len() implies #[trigger] d[i].1@.len() == 0 by {
            assert(d[i] == ps[i]);
        }
        if k > 0 {
            assert(d[k - 1] == ps[k - 1]);
        }
        lemma_trailing_exact(d, k);
    }
}

impl GroupedKeyValueRepr {
    /// Segments a key-value stream: trailing pairs without values become the
    /// annotation, the pairs before the first department key the root, and
    /// the rest the departments with their usage locations.
    pub fn from_pairs(kv: KeyValueRepr) -> (r: Self)
        ensures
            r.root@ == root_of(kv.0@),
            r.departments@.map_values(|d: (String, Vec<Vec<KeyValuePair>>)| department_view(d))
                == departments_in(kv.0@),
            opt_view(r.annotation) == annotation_of(kv.0@),
    {
        let mut pairs = kv.0;
        let ghost ps = pairs@;
        let mut annotation_keys: Vec<String> = Vec::new();
        while pairs.len() > 0 && pairs[pairs.len() - 1].1.len() == 0
            invariant
                pairs@.len() <= ps.len(),
                pairs@ == ps.subrange(0, pairs@.len() as int),
                forall|i: int| pairs@.len() <= i < ps.len() ==> #[trigger] ps[i].1@.len() == 0,
                views(annotation_keys@) == keys_of(ps.subrange(pairs@.len() as int, ps.len() as int)).reverse(),
            decreases pairs@.len(),
        {
            let ghost before = pairs@.len();
            let ghost prev = views(annotation_keys@);
            let p = pairs.pop().unwrap();
            assert(p == ps[before - 1]);
            annotation_keys.push(p.0);
            assert(pairs@ =~= ps.subrange(0, pairs@.len() as int));
            assert(views(annotation_keys@) =~= prev.push(p.0@));
            assert(views(annotation_keys@) =~= keys_of(ps.subrange(pairs@.len() as int, ps.len() as int)).reverse());
        }
        let k = pairs.len();
        proof {
            if k > 0 {
                assert(pairs@[k - 1] == ps[k - 1]);
            }
            lemma_trailing_exact(ps, k as int);
            assert(body(ps) =~= pairs@);
        }
        let annotation = if annotation_keys.len() == 0 {
            None
        } else {
            let ghost a = annotation_keys@;
            let in_order = reversed(annotation_keys);
            proof {
                let ks = keys_of(ps.subrange(k as int, ps.len() as int));
                assert(views(a).len() == ks.len());
                assert forall|i: int| 0 <= i < ks.len() implies views(in_order@)[i] == ks[i] by {
                    assert(in_order@[i] == a[a.len() - 1 - i]);
                    assert(views(a)[a.len() - 1 - i] == ks.reverse()[a.len() - 1 - i]);
                }
                assert(views(in_order@) =~= ks);
            }
            Some(join_strings(&in_order, " "))
        };

        let ghost b = pairs@;
        let mut stack = reversed(pairs);
        let mut root: Vec<KeyValuePair> = Vec::new();
        proof {
            assert(stack@.reverse() =~= b);
            assert(b.subrange(0, 0) =~= root@);
            assert(b.subrange(0, b.len() as int) == b);
        }
        while stack.len() > 0 && !next_is_department(&stack)
            invariant
                root@.len() <= b.len(),
                root@ == b.subrange(0, root@.len() as int),
                stack@.reverse() == b.subrange(root@.len() as int, b.len() as int),
                until_department(b) == root@.len() + until_department(stack@.reverse()),
            decreases stack@.len(),
        {
            let ghost rest = stack@.reverse();
            proof {
                lemma_reverse_pop(rest);
                assert(rest.reverse() =~= stack@);
                lemma_until_step(rest);
            }
            let p = stack.pop().unwrap();
            assert(p == rest[0]);
            root.push(p);
            assert(stack@.reverse() =~= rest.drop_first());
            assert(root@ =~= b.subrange(0, root@.len() as int));
            assert(stack@.reverse() =~= b.subrange(root@.len() as int, b.len() as int));
        }
        proof {
            let rest = stack@.reverse();
            if rest.len() > 0 {
                lemma_reverse_pop(rest);
                assert(rest.reverse() =~= stack@);
            }
            assert(until_department(rest) == 0);
        }
        let departments = group_departments(&mut stack);
        GroupedKeyValueRepr { root, departments, annotation }
    }
}

/// The usage locations of a department without empty ones.
pub open spec fn non_empty_locations(gs: Seq<Seq<KeyValuePair>>) -> Seq<Seq<KeyValuePair>> {
    gs.filter(|g: Seq<KeyValuePair>| g.len() > 0)
}

impl GroupedKeyValueRepr {
    /// Drops the empty usage location that a department without pairs
    /// keeps: the segmenter always keeps its last usage location, and this
    /// is the one place where that is empty. Callers that want no empty
    /// usage locations call this after segmenting.
    pub fn drop_empty_locations(&mut self)
        ensures
            final(self).root == old(self).root,
            final(self).annotation == old(self).annotation,
            final(self).departments@.len() == old(self).departments@.len(),
            forall|i: int| 0 <= i < final(self).departments@.len() ==> {
                let d = #[trigger] department_view(final(self).departments@[i]);
                let o = department_view(old(self).departments@[i]);
                d.0 == o.0 && d.1 == non_empty_locations(o.1)
            },
    {
        let n = self.departments.len();
        let mut i: usize = 0;
        while i < n
            invariant
                i <= n == self.departments@.len(),
                n == old(self).departments@.len(),
                self.root == old(self).root,
                self.annotation == old(self).annotation,
                forall|k: int| i <= k < n ==> #[trigger] self.departments@[k] == old(self).departments@[k],
                forall|k: int| 0 <= k < i ==> {
                    let d = #[trigger] department_view(self.departments@[k]);
                    let o = department_view(old(self).departments@[k]);
                    d.0 == o.0 && d.1 == non_empty_locations(o.1)
                },
            decreases n - i,
        {
            let ghost before = self.departments@;
            let mut department: (String, Vec<Vec<KeyValuePair>>) = (String::new(), Vec::new());
            std::mem::swap(&mut self.departments[i], &mut department);
            let (label, locations) = department;
            let ghost gs = locations@.map_values(|l: Vec<KeyValuePair>| l@);
            let mut stack = reversed(locations);
            let mut kept: Vec<Vec<KeyValuePair>> = Vec::new();
            let ghost total = gs.len();
            assert(stack@.reverse().map_values(|l: Vec<KeyValuePair>| l@) =~= gs.subrange(0, total as int));
            while stack.len() > 0
                invariant
                    total == gs.len(),
                    stack@.len() <= total,
                    stack@.reverse().map_values(|l: Vec<KeyValuePair>| l@) == gs.subrange(total - stack@.len(), total as int),
                    kept@.map_values(|l: Vec<KeyValuePair>| l@) == non_empty_locations(gs.subrange(0, total - stack@.len())),
                decreases stack@.len(),
            {
                let ghost rest = stack@.reverse();
                proof {
                    lemma_reverse_pop(rest);
                    assert(rest.reverse() =~= stack@);
                }
                let ghost done_len = total - stack@.len();
                let g = stack.pop().unwrap();
                assert(g@ == gs[done_len]) by {
                    assert(rest.map_values(|l: Vec<KeyValuePair>| l@)[0] == gs.subrange(done_len, total as int)[0]);
                }
                proof {
                    assert(stack@.reverse() =~= rest.drop_first());
                    let rm = rest.map_values(|l: Vec<KeyValuePair>| l@);
                    assert(rm == gs.subrange(done_len, total as int));
                    assert(rest.drop_first().map_values(|l: Vec<KeyValuePair>| l@) =~= rm.drop_first());
                    assert(rm.drop_first() =~= gs.subrange(done_len + 1, total as int));
                    assert(stack@.reverse().map_values(|l: Vec<KeyValuePair>| l@)
                        =~= gs.subrange(total - stack@.len(), total as int));
                    let prefix = gs.subrange(0, done_len + 1);
                    assert(prefix.drop_last() =~= gs.subrange(0, done_len));
                    assert(prefix.last() == g@);
                    reveal(Seq::filter);
                    assert(non_empty_locations(prefix) == if g@.len() > 0 {
                        non_empty_locations(gs.subrange(0, done_len)).push(g@)
                    } else {
                        non_empty_locations(gs.subrange(0, done_len))
                    });
                }
                let ghost prev = kept@.map_values(|l: Vec<KeyValuePair>| l@);
                if g.len() > 0 {
                    kept.push(g);
                    assert(kept@.map_values(|l: Vec<KeyValuePair>| l@) =~= prev.push(kept@.last()@));
                }
            }
            assert(gs.subrange(0, total as int) =~= gs);
            self.departments[i] = (label, kept);
            assert forall|k: int| 0 <= k < i + 1 implies {
                let d = #[trigger] department_view(self.departments@[k]);
                let o = department_view(old(self).departments@[k]);
                d.0 == o.0 && d.1 == non_empty_locations(o.1)
            } by {
                if k < i {
                    assert(self.departments@[k] == before[k]);
                }
            }
            i = i + 1;
        }
    }
}

/// The pairs of the groups, one group after the other.
pub open spec fn flatten_groups(gs: Seq<Seq<KeyValuePair>>) -> Seq<KeyValuePair>
    decreases gs.len(),
{
    if gs.len() == 0 {
        Seq::empty()
    } else {
        flatten_groups(gs.drop_last()) + gs.last()
    }
}

/// The pairs of departments: each department key pair followed by the
/// pairs of its usage locations.
pub open spec fn flatten_departments(keys: Seq<KeyValuePair>, locs: Seq<Seq<Seq<KeyValuePair>>>) -> Seq<KeyValuePair>
    decreases keys.len(),
{
    if keys.len() == 0 || locs.len() == 0 {
        Seq::empty()
    } else {
        seq![keys[0]] + flatten_groups(locs[0]) + flatten_departments(keys.drop_first(), locs.drop_first())
    }
}

/// The department key pairs of a sequence that is empty or starts with a
/// department key.
pub open spec fn department_pairs(rest: Seq<KeyValuePair>) -> Seq<KeyValuePair>
    decreases rest.len(),
    via department_pairs_decreases
{
    if rest.len() == 0 {
        Seq::empty()
    } else {
        let n = until_department(rest.drop_first()) as int;
        seq![rest[0]] + department_pairs(rest.subrange(1 + n, rest.len() as int))
    }
}

#[via_fn]
proof fn department_pairs_decreases(rest: Seq<KeyValuePair>) {
    if rest.len() > 0 {
        lemma_until_department_bound(rest.drop_first());
    }
}

/// The usage locations of each department.
pub open spec fn department_locations(ds: Seq<(Seq<char>, Seq<Seq<KeyValuePair>>)>) -> Seq<Seq<Seq<KeyValuePair>>> {
    ds.map_values(|d: (Seq<char>, Seq<Seq<KeyValuePair>>)| d.1)
}

/// How usage locations are shaped: every location after the first starts
/// with a location key, no location holds one further in, and none holds a
/// department key.
pub open spec fn locations_shaped(gs: Seq<Seq<KeyValuePair>>) -> bool {
    &&& forall|j: int| 1 <= j < gs.len() ==> (#[trigger] gs[j]).len() > 0 && is_location_key(gs[j][0].0@)
    &&& forall|j: int, k: int| 0 <= j < gs.len() && 1 <= k < gs[j].len() ==> !is_location_key((#[trigger] gs[j][k]).0@)
    &&& forall|j: int, k: int| 0 <= j < gs.len() && 0 <= k < gs[j].len() ==> !is_department_key((#[trigger] gs[j][k]).0@)
}

proof fn lemma_flatten_push(gs: Seq<Seq<KeyValuePair>>, g: Seq<KeyValuePair>)
    ensures
        flatten_groups(gs.push(g)) == flatten_groups(gs) + g,
{
    assert(gs.push(g).drop_last() =~= gs);
}

proof fn lemma_locations_flatten(items: Seq<KeyValuePair>, done: Seq<Seq<KeyValuePair>>, cur: Seq<KeyValuePair>)
    ensures
        flatten_groups(locations_from(items, done, cur)) == flatten_groups(done) + cur + items,
    decreases items.len(),
{
    if items.len() == 0 {
        lemma_flatten_push(done, cur);
        assert(flatten_groups(done) + cur + items =~= flatten_groups(done) + cur);
    } else if is_location_key(items[0].0@) && cur.len() > 0 {
        lemma_locations_flatten(items.drop_first(), done.push(cur), seq![items[0]]);
        lemma_flatten_push(done, cur);
        assert(flatten_groups(done.push(cur)) + seq![items[0]] + items.drop_first() =~= flatten_groups(done) + cur + items);
    } else {
        lemma_locations_flatten(items.drop_first(), done, cur.push(items[0]));
        assert(flatten_groups(done) + cur.push(items[0]) + items.drop_first() =~= flatten_groups(done) + cur + items);
    }
}

/// The state of the location grouping that keeps its result shaped.
pub open spec fn grouping_state(done: Seq<Seq<KeyValuePair>>, cur: Seq<KeyValuePair>) -> bool {
    &&& forall|j: int| 0 <= j < done.len() ==> (#[trigger] done[j]).len() > 0
    &&& locations_shaped(done.push(cur))
    &&& done.len() > 0 ==> cur.len() > 0
}

proof fn lemma_locations_shaped(items: Seq<KeyValuePair>, done: Seq<Seq<KeyValuePair>>, cur: Seq<KeyValuePair>)
    requires
        grouping_state(done, cur),
        forall|k: int| 0 <= k < items.len() ==> !is_department_key((#[trigger] items[k]).0@),
    ensures
        locations_shaped(locations_from(items, done, cur)),
        locations_from(items, done, cur).len() > 0,
        locations_from(items, done, cur).len() > 1 ==> forall|j: int| 0 <= j < locations_from(items, done, cur).len()
            ==> (#[trigger] locations_from(items, done, cur)[j]).len() > 0,
    decreases items.len(),
{
    if items.len() == 0 {
        let r = done.push(cur);
        assert forall|j: int| r.len() > 1 && 0 <= j < r.len() implies (#[trigger] r[j]).len() > 0 by {
            if j < done.len() {
                assert(r[j] == done[j]);
            }
        }
    } else {
        let x = items[0];
        let rest = items.drop_first();
        assert forall|k: int| 0 <= k < rest.len() implies !is_department_key((#[trigger] rest[k]).0@) by {
            assert(rest[k] == items[k + 1]);
        }
        let all = done.push(cur);
        if is_location_key(x.0@) && cur.len() > 0 {
            let d2 = done.push(cur);
            let c2 = seq![x];
            let all2 = d2.push(c2);
            assert forall|j: int| 0 <= j < d2.len() implies (#[trigger] d2[j]).len() > 0 by {
                if j < done.len() {
                    assert(d2[j] == done[j]);
                }
            }
            assert forall|j: int| 1 <= j < all2.len() implies (#[trigger] all2[j]).len() > 0 && is_location_key(all2[j][0].0@) by {
                if j < all.len() {
                    assert(all2[j] == all[j]);
                }
            }
            assert forall|j: int, k: int| 0 <= j < all2.len() && 1 <= k < all2[j].len() implies !is_location_key((#[trigger] all2[j][k]).0@) by {
                assert(all2[j] == all[j]);
            }
            assert forall|j: int, k: int| 0 <= j < all2.len() && 0 <= k < all2[j].len() implies !is_department_key((#[trigger] all2[j][k]).0@) by {
                if j < all.len() {
                    assert(all2[j] == all[j]);
                }
            }
            lemma_locations_shaped(rest, d2, c2);
        } else {
            let c2 = cur.push(x);
            let all2 = done.push(c2);
            assert forall|j: int| 1 <= j < all2.len() implies (#[trigger] all2[j]).len() > 0 && is_location_key(all2[j][0].0@) by {
                if j < done.len() {
                    assert(all2[j] == all[j]);
                } else {
                    assert(all2[j] == c2);
                    assert(c2[0] == cur[0]);
                    assert(all[j] == cur);
                }
            }
            assert forall|j: int, k: int| 0 <= j < all2.len() && 1 <= k < all2[j].len() implies !is_location_key((#[trigger] all2[j][k]).0@) by {
                if j < done.len() {
                    assert(all2[j] == all[j]);
                } else {
                    assert(all[j] == cur);
                    if k < cur.len() {
                        assert(all2[j][k] == all[j][k]);
                    }
                }
            }
            assert forall|j: int, k: int| 0 <= j < all2.len() && 0 <= k < all2[j].len() implies !is_department_key((#[trigger] all2[j][k]).0@) by {
                if j < done.len() {
                    assert(all2[j] == all[j]);
                } else {
                    assert(all[j] == cur);
                    if k < cur.len() {
                        assert(all2[j][k] == all[j][k]);
                    }
                }
            }
            lemma_locations_shaped(rest, done, c2);
        }
    }
}

proof fn lemma_until_prefix(s: Seq<KeyValuePair>)
    ensures
        forall|k: int| 0 <= k < until_department(s) ==> !is_department_key((#[trigger] s[k]).0@),
    decreases s.len(),
{
    lemma_until_department_bound(s);
    if s.len() > 0 && !is_department_key(s[0].0@) {
        lemma_until_prefix(s.drop_first());
        assert forall|k: int| 0 <= k < until_department(s) implies !is_department_key((#[trigger] s[k]).0@) by {
            if k > 0 {
                assert(s[k] == s.drop_first()[k - 1]);
            }
        }
    }
}

proof fn lemma_departments_structure(rest: Seq<KeyValuePair>)
    requires
        rest.len() > 0 ==> is_department_key(rest[0].0@),
    ensures
        ({
            let ds = departments_of(rest);
            let keys = department_pairs(rest);
            &&& keys.len() == ds.len()
            &&& rest == flatten_departments(keys, department_locations(ds))
            &&& forall|i: int| 0 <= i < keys.len() ==> is_department_key((#[trigger] keys[i]).0@)
                && ds[i].0 == join(views(keys[i].1@), Seq::empty())
            &&& forall|i: int| 0 <= i < ds.len() ==> locations_canonical((#[trigger] ds[i]).1)
        }),
    decreases rest.len(),
{
    if rest.len() > 0 {
        let tail = rest.drop_first();
        let n = until_department(tail) as int;
        lemma_until_department_bound(tail);
        lemma_until_prefix(tail);
        let items = rest.subrange(1, 1 + n);
        let rest2 = rest.subrange(1 + n, rest.len() as int);
        assert forall|k: int| 0 <= k < items.len() implies !is_department_key((#[trigger] items[k]).0@) by {
            assert(items[k] == tail[k]);
        }
        if rest2.len() > 0 {
            assert(rest2[0] == tail[n]);
        }
        lemma_departments_structure(rest2);
        lemma_locations_flatten(items, Seq::empty(), Seq::empty());
        assert(flatten_groups(Seq::<Seq<KeyValuePair>>::empty()) + Seq::<KeyValuePair>::empty() + items =~= items);
        assert(seq![Seq::<KeyValuePair>::empty()].drop_last() =~= Seq::<Seq<KeyValuePair>>::empty());
        lemma_locations_shaped(items, Seq::empty(), Seq::empty());
        let ds = departments_of(rest);
        let keys = department_pairs(rest);
        let d0 = (join(views(rest[0].1@), Seq::empty()), locations(items));
        assert(ds == seq![d0] + departments_of(rest2));
        assert(keys == seq![rest[0]] + department_pairs(rest2));
        assert(department_locations(ds).drop_first() =~= department_locations(departments_of(rest2)));
        assert(keys.drop_first() =~= department_pairs(rest2));
        assert(rest =~= seq![rest[0]] + items + rest2);
        assert forall|i: int| 0 <= i < keys.len() implies is_department_key((#[trigger] keys[i]).0@)
            && ds[i].0 == join(views(keys[i].1@), Seq::empty()) by {
            if i > 0 {
                assert(keys[i] == department_pairs(rest2)[i - 1]);
                assert(ds[i] == departments_of(rest2)[i - 1]);
            }
        }
        assert forall|i: int| 0 <= i < ds.len() implies locations_canonical((#[trigger] ds[i]).1) by {
            if i > 0 {
                assert(ds[i] == departments_of(rest2)[i - 1]);
            }
        }
    }
}

/// Every section that the segmenter makes starts where the stream has its
/// sentinel key: the root holds no department key; the body is the root
/// followed, for each department, by a pair with the key "Abteilung:"
/// (whose joined values are the department's label) and the pairs of the
/// department's usage locations; every usage location after the first
/// starts with the key "Nutzungsort Lfd. Nr.:", which no location holds
/// further in, no location holds a department key, and none is empty
/// unless it is its department's only one.
pub proof fn lemma_sentinel_invariant(ps: Seq<KeyValuePair>)
    ensures
        ({
            let b = body(ps);
            let rest = b.subrange(until_department(b) as int, b.len() as int);
            let ds = departments_in(ps);
            let keys = department_pairs(rest);
            &&& forall|k: int| 0 <= k < root_of(ps).len() ==> !is_department_key((#[trigger] root_of(ps)[k]).0@)
            &&& keys.len() == ds.len()
            &&& b == root_of(ps) + flatten_departments(keys, department_locations(ds))
            &&& forall|i: int| 0 <= i < keys.len() ==> is_department_key((#[trigger] keys[i]).0@)
                && ds[i].0 == join(views(keys[i].1@), Seq::empty())
            &&& forall|i: int| 0 <= i < ds.len() ==> locations_canonical((#[trigger] ds[i]).1)
        }),
{
    let b = body(ps);
    let n = until_department(b) as int;
    lemma_until_department_bound(b);
    lemma_until_prefix(b);
    let rest = b.subrange(n, b.len() as int);
    if rest.len() > 0 {
        assert(rest[0] == b[n]);
    }
    lemma_departments_structure(rest);
    assert forall|k: int| 0 <= k < root_of(ps).len() implies !is_department_key((#[trigger] root_of(ps)[k]).0@) by {
        assert(root_of(ps)[k] == b[k]);
    }
    assert(b =~= root_of(ps) + rest);
}

proof fn lemma_flatten_cons(g: Seq<KeyValuePair>, gs: Seq<Seq<KeyValuePair>>)
    ensures
        flatten_groups(seq![g] + gs) == g + flatten_groups(gs),
    decreases gs.len(),
{
    if gs.len() == 0 {
        assert((seq![g] + gs).drop_last() =~= Seq::<Seq<KeyValuePair>>::empty());
        assert((seq![g] + gs).last() == g);
        assert(flatten_groups(Seq::<Seq<KeyValuePair>>::empty()) =~= Seq::<KeyValuePair>::empty());
        assert(flatten_groups(seq![g] + gs) =~= g);
        assert(g + flatten_groups(gs) =~= g);
    } else {
        assert((seq![g] + gs).drop_last() =~= seq![g] + gs.drop_last());
        lemma_flatten_cons(g, gs.drop_last());
        assert(g + flatten_groups(gs.drop_last()) + gs.last() =~= g + (flatten_groups(gs.drop_last()) + gs.last()));
    }
}

proof fn lemma_flatten_no_keys(gs: Seq<Seq<KeyValuePair>>)
    requires
        forall|j: int, k: int| 0 <= j < gs.len() && 0 <= k < gs[j].len() ==> !is_department_key((#[trigger] gs[j][k]).0@),
    ensures
        forall|k: int| 0 <= k < flatten_groups(gs).len() ==> !is_department_key((#[trigger] flatten_groups(gs)[k]).0@),
    decreases gs.len(),
{
    if gs.len() > 0 {
        let d = gs.drop_last();
        assert forall|j: int, k: int| 0 <= j < d.len() && 0 <= k < d[j].len() implies !is_department_key((#[trigger] d[j][k]).0@) by {
            assert(d[j] == gs[j]);
        }
        lemma_flatten_no_keys(d);
        let f = flatten_groups(gs);
        assert forall|k: int| 0 <= k < f.len() implies !is_department_key((#[trigger] f[k]).0@) by {
            if k < flatten_groups(d).len() {
                assert(f[k] == flatten_groups(d)[k]);
            } else {
                assert(f[k] == gs.last()[k - flatten_groups(d).len()]);
                assert(gs.last() == gs[gs.len() - 1]);
            }
        }
    }
}

proof fn lemma_locations_append(xs: Seq<KeyValuePair>, rest: Seq<KeyValuePair>, done: Seq<Seq<KeyValuePair>>, cur: Seq<KeyValuePair>)
    requires
        forall|k: int| 0 <= k < xs.len() ==> !is_location_key((#[trigger] xs[k]).0@),
    ensures
        locations_from(xs + rest, done, cur) == locations_from(rest, done, cur + xs),
    decreases xs.len(),
{
    if xs.len() == 0 {
        assert(xs + rest =~= rest);
        assert(cur + xs =~= cur);
    } else {
        let t = xs.drop_first();
        assert forall|k: int| 0 <= k < t.len() implies !is_location_key((#[trigger] t[k]).0@) by {
            assert(t[k] == xs[k + 1]);
        }
        assert((xs + rest)[0] == xs[0]);
        assert((xs + rest).drop_first() =~= t + rest);
        lemma_locations_append(t, rest, done, cur.push(xs[0]));
        assert(cur.push(xs[0]) + t =~= cur + xs);
    }
}

proof fn lemma_locations_of_tail(gs: Seq<Seq<KeyValuePair>>, done: Seq<Seq<KeyValuePair>>, cur: Seq<KeyValuePair>)
    requires
        cur.len() > 0,
        forall|j: int| 0 <= j < gs.len() ==> (#[trigger] gs[j]).len() > 0 && is_location_key(gs[j][0].0@),
        forall|j: int, k: int| 0 <= j < gs.len() && 1 <= k < gs[j].len() ==> !is_location_key((#[trigger] gs[j][k]).0@),
    ensures
        locations_from(flatten_groups(gs), done, cur) == done.push(cur) + gs,
    decreases gs.len(),
{
    if gs.len() == 0 {
        assert(done.push(cur) + gs =~= done.push(cur));
    } else {
        let g = gs[0];
        let tail = gs.drop_first();
        assert(gs =~= seq![g] + tail);
        lemma_flatten_cons(g, tail);
        let x = g[0];
        let g1 = g.drop_first();
        assert forall|k: int| 0 <= k < g1.len() implies !is_location_key((#[trigger] g1[k]).0@) by {
            assert(g1[k] == gs[0][k + 1]);
        }
        let f = flatten_groups(gs);
        assert(f =~= seq![x] + (g1 + flatten_groups(tail)));
        assert(f.drop_first() =~= g1 + flatten_groups(tail));
        lemma_locations_append(g1, flatten_groups(tail), done.push(cur), seq![x]);
        assert(seq![x] + g1 =~= g);
        assert forall|j: int| 0 <= j < tail.len() implies (#[trigger] tail[j]).len() > 0 && is_location_key(tail[j][0].0@) by {
            assert(tail[j] == gs[j + 1]);
        }
        assert forall|j: int, k: int| 0 <= j < tail.len() && 1 <= k < tail[j].len() implies !is_location_key((#[trigger] tail[j][k]).0@) by {
            assert(tail[j] == gs[j + 1]);
        }
        lemma_locations_of_tail(tail, done.push(cur), g);
        assert(done.push(cur).push(g) + tail =~= done.push(cur) + gs);
    }
}

/// Usage locations as the segmenter makes them: at least one; shaped; and
/// none empty unless it is the only one.
pub open spec fn locations_canonical(gs: Seq<Seq<KeyValuePair>>) -> bool {
    &&& gs.len() > 0
    &&& locations_shaped(gs)
    &&& gs.len() > 1 ==> forall|j: int| 0 <= j < gs.len() ==> (#[trigger] gs[j]).len() > 0
}

proof fn lemma_locations_of_flatten(gs: Seq<Seq<KeyValuePair>>)
    requires
        locations_canonical(gs),
    ensures
        locations(flatten_groups(gs)) == gs,
{
    let g = gs[0];
    let tail = gs.drop_first();
    assert(gs =~= seq![g] + tail);
    lemma_flatten_cons(g, tail);
    if g.len() == 0 {
        assert(tail.len() == 0);
        assert(flatten_groups(tail) =~= Seq::<KeyValuePair>::empty());
        assert(flatten_groups(gs) =~= Seq::<KeyValuePair>::empty());
        assert(locations(flatten_groups(gs)) =~= seq![Seq::<KeyValuePair>::empty()]);
        assert(gs =~= seq![Seq::<KeyValuePair>::empty()]);
    } else {
        let x = g[0];
        let g1 = g.drop_first();
        assert forall|k: int| 0 <= k < g1.len() implies !is_location_key((#[trigger] g1[k]).0@) by {
            assert(g1[k] == gs[0][k + 1]);
        }
        let f = flatten_groups(gs);
        assert(f =~= seq![x] + (g1 + flatten_groups(tail)));
        assert(f[0] == x);
        assert(f.drop_first() =~= g1 + flatten_groups(tail));
        assert(locations_from(f, Seq::empty(), Seq::empty()) == locations_from(f.drop_first(), Seq::empty(), seq![x]));
        lemma_locations_append(g1, flatten_groups(tail), Seq::empty(), seq![x]);
        assert(seq![x] + g1 =~= g);
        assert forall|j: int| 0 <= j < tail.len() implies (#[trigger] tail[j]).len() > 0 && is_location_key(tail[j][0].0@) by {
            assert(tail[j] == gs[j + 1]);
        }
        assert forall|j: int, k: int| 0 <= j < tail.len() && 1 <= k < tail[j].len() implies !is_location_key((#[trigger] tail[j][k]).0@) by {
            assert(tail[j] == gs[j + 1]);
        }
        lemma_locations_of_tail(tail, Seq::empty(), g);
        assert(Seq::<Seq<KeyValuePair>>::empty().push(g) + tail =~= gs);
    }
}

proof fn lemma_until_concat(a: Seq<KeyValuePair>, b: Seq<KeyValuePair>)
    requires
        forall|k: int| 0 <= k < a.len() ==> !is_department_key((#[trigger] a[k]).0@),
    ensures
        until_department(a + b) == a.len() + until_department(b),
    decreases a.len(),
{
    if a.len() == 0 {
        assert(a + b =~= b);
    } else {
        let t = a.drop_first();
        assert forall|k: int| 0 <= k < t.len() implies !is_department_key((#[trigger] t[k]).0@) by {
            assert(t[k] == a[k + 1]);
        }
        assert((a + b)[0] == a[0]);
        assert((a + b).drop_first() =~= t + b);
        lemma_until_concat(t, b);
    }
}

/// The departments that the segmenter reads from flattened departments.
pub open spec fn departments_from_parts(keys: Seq<KeyValuePair>, locs: Seq<Seq<Seq<KeyValuePair>>>) -> Seq<(Seq<char>, Seq<Seq<KeyValuePair>>)> {
    Seq::new(keys.len(), |i: int| (join(views(keys[i].1@), Seq::empty()), locs[i]))
}

proof fn lemma_departments_of_flatten(keys: Seq<KeyValuePair>, locs: Seq<Seq<Seq<KeyValuePair>>>)
    requires
        keys.len() == locs.len(),
        forall|i: int| 0 <= i < keys.len() ==> is_department_key((#[trigger] keys[i]).0@),
        forall|i: int| 0 <= i < locs.len() ==> locations_canonical(#[trigger] locs[i]),
    ensures
        departments_of(flatten_departments(keys, locs)) == departments_from_parts(keys, locs),
        flatten_departments(keys, locs).len() > 0 ==> is_department_key(flatten_departments(keys, locs)[0].0@),
    decreases keys.len(),
{
    if keys.len() > 0 {
        let k2 = keys.drop_first();
        let l2 = locs.drop_first();
        assert forall|i: int| 0 <= i < k2.len() implies is_department_key((#[trigger] k2[i]).0@) by {
            assert(k2[i] == keys[i + 1]);
        }
        assert forall|i: int| 0 <= i < l2.len() implies locations_canonical(#[trigger] l2[i]) by {
            assert(l2[i] == locs[i + 1]);
        }
        lemma_departments_of_flatten(k2, l2);
        let items = flatten_groups(locs[0]);
        let rest2 = flatten_departments(k2, l2);
        let rest = flatten_departments(keys, locs);
        assert(rest == seq![keys[0]] + items + rest2);
        assert(locations_canonical(locs[0]));
        lemma_flatten_no_keys(locs[0]);
        assert(rest.drop_first() =~= items + rest2);
        lemma_until_concat(items, rest2);
        assert(until_department(rest2) == 0);
        let n = items.len() as int;
        assert(rest.subrange(1, 1 + n) =~= items);
        assert(rest.subrange(1 + n, rest.len() as int) =~= rest2);
        lemma_locations_of_flatten(locs[0]);
        assert(rest[0] == keys[0]);
        let want = departments_from_parts(keys, locs);
        assert(want =~= seq![(join(views(keys[0].1@), Seq::empty()), locs[0])] + departments_from_parts(k2, l2));
    }
}

/// Segmenting the pairs of a segmented record gives the record back. The
/// record is flattened into its root pairs, then for each department its
/// key pair and the pairs of its usage locations, then the annotation as a
/// pair without values. It must look as the segmenter leaves one: no
/// department key in the root, usage locations as the segmenter groups
/// them, and a last pair before the annotation that has values.
pub proof fn lemma_regrouping_idempotent(
    root: Seq<KeyValuePair>,
    keys: Seq<KeyValuePair>,
    locs: Seq<Seq<Seq<KeyValuePair>>>,
    note: Seq<KeyValuePair>,
)
    requires
        forall|k: int| 0 <= k < root.len() ==> !is_department_key((#[trigger] root[k]).0@),
        keys.len() == locs.len(),
        forall|i: int| 0 <= i < keys.len() ==> is_department_key((#[trigger] keys[i]).0@),
        forall|i: int| 0 <= i < locs.len() ==> locations_canonical(#[trigger] locs[i]),
        note.len() <= 1,
        note.len() == 1 ==> note[0].1@.len() == 0,
        ({
            let b = root + flatten_departments(keys, locs);
            b.len() > 0 ==> b.last().1@.len() > 0
        }),
    ensures
        ({
            let ps = root + flatten_departments(keys, locs) + note;
            &&& root_of(ps) == root
            &&& departments_in(ps) == departments_from_parts(keys, locs)
            &&& annotation_of(ps) == if note.len() == 0 { None } else { Some(note[0].0@) }
        }),
{
    let rest = flatten_departments(keys, locs);
    let b = root + rest;
    let ps = b + note;
    assert forall|i: int| b.len() <= i < ps.len() implies #[trigger] ps[i].1@.len() == 0 by {
        assert(ps[i] == note[i - b.len()]);
    }
    if b.len() > 0 {
        assert(ps[b.len() - 1] == b.last());
    }
    lemma_trailing_exact(ps, b.len() as int);
    assert(body(ps) =~= b);
    lemma_departments_of_flatten(keys, locs);
    lemma_until_concat(root, rest);
    assert(until_department(b) == root.len());
    assert(b.subrange(0, root.len() as int) =~= root);
    assert(b.subrange(root.len() as int, b.len() as int) =~= rest);
    if note.len() == 1 {
        assert(ps.subrange(ps.len() - 1, ps.len() as int) =~= note);
        assert(keys_of(note) =~= seq![note[0].0@]);
    }
}

proof fn lemma_flatten_last(keys: Seq<KeyValuePair>, locs: Seq<Seq<Seq<KeyValuePair>>>)
    requires
        keys.len() == locs.len(),
        keys.len() > 0,
    ensures
        ({
            let f = flatten_departments(keys, locs);
            let g = flatten_groups(locs.last());
            &&& f.len() > 0
            &&& g.len() == 0 ==> f.last() == keys.last()
            &&& g.len() > 0 ==> f.last() == g.last()
        }),
    decreases keys.len(),
{
    let f = flatten_departments(keys, locs);
    let rest = flatten_departments(keys.drop_first(), locs.drop_first());
    assert(f == seq![keys[0]] + flatten_groups(locs[0]) + rest);
    if keys.len() == 1 {
        assert(rest =~= Seq::<KeyValuePair>::empty());
        assert(locs.last() == locs[0]);
        assert(keys.last() == keys[0]);
    } else {
        lemma_flatten_last(keys.drop_first(), locs.drop_first());
        assert(keys.drop_first().last() == keys.last());
        assert(locs.drop_first().last() == locs.last());
        assert(f.last() == rest.last());
    }
}

/// Segmenting what the segmenter made of `ps`, flattened back into pairs,
/// gives the same sections: the root pairs, then for each department a
/// department key pair with the label as its only value followed by the
/// pairs of its usage locations, then the annotation as a pair without
/// values.
pub proof fn lemma_segmenting_twice(ps: Seq<KeyValuePair>, keys: Seq<KeyValuePair>, note: Seq<KeyValuePair>)
    requires
        keys.len() == departments_in(ps).len(),
        forall|i: int| 0 <= i < keys.len() ==> is_department_key((#[trigger] keys[i]).0@)
            && views(keys[i].1@) == seq![departments_in(ps)[i].0],
        note.len() == (if annotation_of(ps) is Some { 1int } else { 0 }),
        note.len() == 1 ==> note[0].0@ == annotation_of(ps)->0 && note[0].1@.len() == 0,
    ensures
        ({
            let qs = root_of(ps) + flatten_departments(keys, department_locations(departments_in(ps))) + note;
            &&& root_of(qs) == root_of(ps)
            &&& departments_in(qs) == departments_in(ps)
            &&& annotation_of(qs) == annotation_of(ps)
        }),
{
    let ds = departments_in(ps);
    let locs = department_locations(ds);
    let b = body(ps);
    let rest = b.subrange(until_department(b) as int, b.len() as int);
    let keys0 = department_pairs(rest);
    lemma_sentinel_invariant(ps);
    lemma_trailing_bound(ps);
    assert forall|i: int| 0 <= i < locs.len() implies locations_canonical(#[trigger] locs[i]) by {
        assert(locs[i] == ds[i].1);
    }
    let b2 = root_of(ps) + flatten_departments(keys, locs);
    if b2.len() > 0 {
        if keys.len() == 0 {
            assert(flatten_departments(keys, locs) =~= Seq::<KeyValuePair>::empty());
            assert(flatten_departments(keys0, locs) =~= Seq::<KeyValuePair>::empty());
            assert(b2 =~= b);
            assert(b.last() == ps[ps.len() - trailing_empty(ps) - 1]);
        } else {
            lemma_flatten_last(keys, locs);
            lemma_flatten_last(keys0, locs);
            let g = flatten_groups(locs.last());
            let f2 = flatten_departments(keys, locs);
            let f0 = flatten_departments(keys0, locs);
            assert(b2.last() == f2.last());
            assert(b.last() == f0.last());
            assert(b.len() > 0);
            assert(b.last() == ps[ps.len() - trailing_empty(ps) - 1]);
            if g.len() == 0 {
                assert(keys.last() == keys[keys.len() - 1]);
                assert(views(keys.last().1@).len() == 1);
            }
        }
    }
    lemma_regrouping_idempotent(root_of(ps), keys, locs, note);
    let parts = departments_from_parts(keys, locs);
    assert forall|i: int| 0 <= i < parts.len() implies parts[i] == ds[i] by {
        assert(views(keys[i].1@).len() == 1);
        assert(join(views(keys[i].1@), Seq::empty()) == views(keys[i].1@)[0]);
        assert(locs[i] == ds[i].1);
    }
    assert(parts =~= ds);
}

/// How many pairs of `s` have the department key.
pub open spec fn count_department_keys(s: Seq<KeyValuePair>) -> nat
    decreases s.len(),
{
    if s.len() == 0 {
        0
    } else {
        count_department_keys(s.drop_last()) + if is_department_key(s.last().0@) { 1nat } else { 0nat }
    }
}

proof fn lemma_count_concat(a: Seq<KeyValuePair>, b: Seq<KeyValuePair>)
    ensures
        count_department_keys(a + b) == count_department_keys(a) + count_department_keys(b),
    decreases b.len(),
{
    if b.len() == 0 {
        assert(a + b =~= a);
    } else {
        assert((a + b).drop_last() =~= a + b.drop_last());
        assert((a + b).last() == b.last());
        lemma_count_concat(a, b.drop_last());
    }
}

proof fn lemma_count_none(s: Seq<KeyValuePair>)
    requires
        forall|k: int| 0 <= k < s.len() ==> !is_department_key((#[trigger] s[k]).0@),
    ensures
        count_department_keys(s) == 0,
    decreases s.len(),
{
    if s.len() > 0 {
        assert forall|k: int| 0 <= k < s.drop_last().len() implies !is_department_key((#[trigger] s.drop_last()[k]).0@) by {
            assert(s.drop_last()[k] == s[k]);
        }
        lemma_count_none(s.drop_last());
        assert(s.last() == s[s.len() - 1]);
    }
}

proof fn lemma_count_flatten(keys: Seq<KeyValuePair>, locs: Seq<Seq<Seq<KeyValuePair>>>)
    requires
        keys.len() == locs.len(),
        forall|i: int| 0 <= i < keys.len() ==> is_department_key((#[trigger] keys[i]).0@),
        forall|i: int| 0 <= i < locs.len() ==> locations_shaped(#[trigger] locs[i]),
    ensures
        count_department_keys(flatten_departments(keys, locs)) == keys.len(),
    decreases keys.len(),
{
    if keys.len() > 0 {
        let k2 = keys.drop_first();
        let l2 = locs.drop_first();
        assert forall|i: int| 0 <= i < k2.len() implies is_department_key((#[trigger] k2[i]).0@) by {
            assert(k2[i] == keys[i + 1]);
        }
        assert forall|i: int| 0 <= i < l2.len() implies locations_shaped(#[trigger] l2[i]) by {
            assert(l2[i] == locs[i + 1]);
        }
        lemma_count_flatten(k2, l2);
        assert(locations_shaped(locs[0]));
        lemma_flatten_no_keys(locs[0]);
        lemma_count_none(flatten_groups(locs[0]));
        lemma_count_concat(seq![keys[0]], flatten_groups(locs[0]));
        lemma_count_concat(seq![keys[0]] + flatten_groups(locs[0]), flatten_departments(k2, l2));
        assert(seq![keys[0]].drop_last() =~= Seq::<KeyValuePair>::empty());
        assert(count_department_keys(Seq::<KeyValuePair>::empty()) == 0);
        assert(seq![keys[0]].last() == keys[0]);
        assert(is_department_key(keys[0].0@));
        assert(count_department_keys(seq![keys[0]]) == 1);
    }
}

/// The segmenter makes one department for each pair with the department
/// key in the pairs before the annotation, and no other.
pub proof fn lemma_one_department_per_key(ps: Seq<KeyValuePair>)
    ensures
        departments_in(ps).len() == count_department_keys(body(ps)),
{
    let ds = departments_in(ps);
    let b = body(ps);
    let rest = b.subrange(until_department(b) as int, b.len() as int);
    let keys = department_pairs(rest);
    lemma_sentinel_invariant(ps);
    let locs = department_locations(ds);
    assert forall|i: int| 0 <= i < locs.len() implies locations_shaped(#[trigger] locs[i]) by {
        assert(locs[i] == ds[i].1);
    }
    lemma_count_flatten(keys, locs);
    lemma_count_none(root_of(ps));
    lemma_count_concat(root_of(ps), flatten_departments(keys, locs));
}

} // verus!
