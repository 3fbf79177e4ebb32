//! Docker Compose orchestration rules: dependency labels, the order in which
//! the services of a project are started and stopped, and how the states of
//! containers add up to the state of a service or project.
use vstd::prelude::*;
use vstd::relations::injective;
use vstd::set_lib::{lemma_int_range, lemma_len_subset, set_int_range};

use crate::resource::{is_known_action, AppError, ResourceStatus};
use crate::text::{
    before_char, before_char_exec, char_views, chars_of, contains_text, lemma_char_views_push,
    push_all, split_acc, split_on, str_views, string_of, strings_of, trim, trim_chars,
};

verus! {

broadcast use vstd::seq_lib::lemma_seq_contains_after_push;

// ---------------------------------------------------------------------------
// `depends_on` labels
// ---------------------------------------------------------------------------
/// Service named by one comma-separated piece of a `depends_on` label
/// (`name:condition:restart` or a bare `name`).
pub open spec fn dep_name(piece: Seq<char>) -> Seq<char> {
    trim(before_char(trim(piece), ':'))
}

/// `deps` after reading one more piece: a new, non-empty name is appended.
pub open spec fn add_dep(deps: Seq<Seq<char>>, piece: Seq<char>) -> Seq<Seq<char>> {
    let n = dep_name(piece);
    if n.len() == 0 || deps.contains(n) {
        deps
    } else {
        deps.push(n)
    }
}

pub open spec fn deps_fold(pieces: Seq<Seq<char>>) -> Seq<Seq<char>>
    decreases pieces.len(),
{
    if pieces.len() == 0 {
        Seq::empty()
    } else {
        add_dep(deps_fold(pieces.drop_last()), pieces.last())
    }
}

/// Services a `depends_on` label names, first occurrence first, without repeats.
pub open spec fn depends_on_list(label: Seq<char>) -> Seq<Seq<char>> {
    deps_fold(split_on(label, ','))
}

fn add_dep_exec(deps: &mut Vec<Vec<char>>, piece: &[char])
    ensures
        char_views(final(deps)@) == add_dep(char_views(old(deps)@), piece@),
{
    let t = trim_chars(piece);
    let b = before_char_exec(&t, ':');
    let n = trim_chars(&b);
    if n.len() > 0 && !contains_text(deps, &n) {
        proof {
            lemma_char_views_push(deps@, n);
        }
        deps.push(n);
    }
}

/// Parses a compose `depends_on` label (`"db:service_healthy:false,redis"` or
/// `"db, redis"`) into the service names it lists, in order, each once.
pub fn parse_depends_on(label_val: &str) -> (r: Vec<String>)
    ensures
        str_views(r@) == depends_on_list(label_val@),
{
    let s = chars_of(label_val);
    let mut deps: Vec<Vec<char>> = Vec::new();
    let mut cur: Vec<char> = Vec::new();
    let ghost mut done: Seq<Seq<char>> = Seq::empty();
    let mut i: usize = 0;
    while i < s.len()
        invariant
            i <= s@.len(),
            split_acc(s@.take(i as int), ',') == (done, cur@),
            char_views(deps@) == deps_fold(done),
        decreases s.len() - i,
    {
        let c = s[i];
        proof {
            assert(s@.take(i + 1).drop_last() =~= s@.take(i as int));
        }
        if c == ',' {
            add_dep_exec(&mut deps, &cur);
            proof {
                assert(done.push(cur@).drop_last() =~= done);
                done = done.push(cur@);
            }
            cur = Vec::new();
        } else {
            cur.push(c);
        }
        i += 1;
    }
    add_dep_exec(&mut deps, &cur);
    proof {
        assert(s@.take(s@.len() as int) =~= s@);
        assert(done.push(cur@).drop_last() =~= done);
    }
    strings_of(&deps)
}

// ---------------------------------------------------------------------------
// Start and stop order
// ---------------------------------------------------------------------------
/// A list of `(service, dependencies)` entries as texts.
pub open spec fn dep_view(dm: Seq<(String, Vec<String>)>) -> Seq<(Seq<char>, Seq<Seq<char>>)> {
    Seq::new(dm.len(), |i: int| (dm[i].0@, str_views(dm[i].1@)))
}

/// Dependencies declared for `name` in a list of `(service, dependencies)`
/// entries: those of the first entry for `name`, none without an entry.
pub open spec fn deps_of(dm: Seq<(Seq<char>, Seq<Seq<char>>)>, name: Seq<char>) -> Seq<Seq<char>>
    decreases dm.len(),
{
    if dm.len() == 0 {
        Seq::empty()
    } else if dm[0].0 == name {
        dm[0].1
    } else {
        deps_of(dm.drop_first(), name)
    }
}

/// Service `i` of `sv` depends on service `j` of `sv`.
pub open spec fn depends(sv: Seq<Seq<char>>, dm: Seq<(Seq<char>, Seq<Seq<char>>)>, i: int, j: int) -> bool {
    0 <= i < sv.len() && 0 <= j < sv.len() && deps_of(dm, sv[i]).contains(sv[j])
}

/// `ix` lists the services of `sv` by index, and its first `k` entries are
/// the services started by dependency order; the rest wait on each other.
pub open spec fn start_order_at(
    sv: Seq<Seq<char>>,
    dm: Seq<(Seq<char>, Seq<Seq<char>>)>,
    ix: Seq<usize>,
    k: int,
) -> bool {
    let n = sv.len();
    &&& ix.len() == n
    &&& 0 <= k <= n
    &&& forall|a: int| 0 <= a < n ==> (#[trigger] ix[a] as int) < n
    &&& ix.no_duplicates()
    // every dependency of a service in the ordered part comes before it
    &&& forall|a: int, j: int|
        0 <= a < k && #[trigger] depends(sv, dm, ix[a] as int, j) ==> exists|b: int|
            0 <= b < a && ix[b] as int == j
    // the rest keep their listed order, and each waits on another of the rest
    &&& forall|a: int, b: int| k <= a < b < n ==> ix[a] < ix[b]
    &&& forall|a: int| k <= a < n ==> #[trigger] waits_on_rest(sv, dm, ix, k, a)
}

/// The service at position `a` of `ix` depends on one at a position `>= k`.
pub open spec fn waits_on_rest(
    sv: Seq<Seq<char>>,
    dm: Seq<(Seq<char>, Seq<Seq<char>>)>,
    ix: Seq<usize>,
    k: int,
    a: int,
) -> bool {
    exists|j: int|
        #[trigger] depends(sv, dm, ix[a] as int, j) && exists|b: int|
            k <= b < ix.len() && ix[b] as int == j
}

/// The services of `sv` picked by the indices `ix`.
pub open spec fn names_at(sv: Seq<Seq<char>>, ix: Seq<usize>) -> Seq<Seq<char>> {
    Seq::new(ix.len(), |a: int| sv[ix[a] as int])
}

/// `r` is an order in which the services `sv` may be started: dependencies
/// first; services caught in a dependency cycle last, in their listed order.
pub open spec fn is_start_order(
    sv: Seq<Seq<char>>,
    dm: Seq<(Seq<char>, Seq<Seq<char>>)>,
    r: Seq<Seq<char>>,
) -> bool {
    exists|ix: Seq<usize>, k: int| start_order_at(sv, dm, ix, k) && r == names_at(sv, ix)
}

/// Every service that service `v` depends on is among the indices `t`.
pub open spec fn dep_ready(
    sv: Seq<Seq<char>>,
    dm: Seq<(Seq<char>, Seq<Seq<char>>)>,
    v: int,
    t: Seq<usize>,
) -> bool {
    forall|j: int| #[trigger] depends(sv, dm, v, j) ==> t.contains(j as usize)
}

/// Indices below `k`, in increasing order, of the services not in `q` whose
/// dependencies are all in `done`.
pub open spec fn ready_below(
    sv: Seq<Seq<char>>,
    dm: Seq<(Seq<char>, Seq<Seq<char>>)>,
    q: Seq<usize>,
    done: Seq<usize>,
    k: int,
) -> Seq<usize>
    decreases k,
{
    if k <= 0 {
        Seq::empty()
    } else {
        let rest = ready_below(sv, dm, q, done, k - 1);
        if !q.contains((k - 1) as usize) && dep_ready(sv, dm, k - 1, done) {
            rest.push((k - 1) as usize)
        } else {
            rest
        }
    }
}

/// Indices below `k`, in increasing order, that are not in `q`.
pub open spec fn missing_below(q: Seq<usize>, k: int) -> Seq<usize>
    decreases k,
{
    if k <= 0 {
        Seq::empty()
    } else if q.contains((k - 1) as usize) {
        missing_below(q, k - 1)
    } else {
        missing_below(q, k - 1).push((k - 1) as usize)
    }
}

/// The first-come first-served queue of ready services: while a queued
/// service is left to start (at `head`), start it and queue, in list order,
/// the services that it leaves with every dependency started.
pub open spec fn kahn_queue(
    sv: Seq<Seq<char>>,
    dm: Seq<(Seq<char>, Seq<Seq<char>>)>,
    q: Seq<usize>,
    head: nat,
    fuel: nat,
) -> Seq<usize>
    decreases fuel,
{
    if fuel == 0 || head >= q.len() {
        q
    } else {
        kahn_queue(
            sv,
            dm,
            q + ready_below(sv, dm, q, q.take(head + 1 as int), sv.len() as int),
            head + 1,
            (fuel - 1) as nat,
        )
    }
}

/// The start order by index: the services without dependencies in list
/// order, then each service as soon as the last of its dependencies has
/// started (first come, first served); the services left over, caught in a
/// dependency cycle, follow in list order.
pub open spec fn start_indices(sv: Seq<Seq<char>>, dm: Seq<(Seq<char>, Seq<Seq<char>>)>) -> Seq<
    usize,
> {
    let n = sv.len() as int;
    let q = kahn_queue(sv, dm, ready_below(sv, dm, Seq::empty(), Seq::empty(), n), 0, (n + 1) as nat);
    q + missing_below(q, n)
}

/// The order in which the services `sv` start (see `start_indices`).
pub open spec fn start_order(sv: Seq<Seq<char>>, dm: Seq<(Seq<char>, Seq<Seq<char>>)>) -> Seq<
    Seq<char>,
> {
    names_at(sv, start_indices(sv, dm))
}

proof fn lemma_ready_below_bound(
    sv: Seq<Seq<char>>,
    dm: Seq<(Seq<char>, Seq<Seq<char>>)>,
    q: Seq<usize>,
    done: Seq<usize>,
    k: int,
)
    requires
        0 <= k <= usize::MAX + 1,
    ensures
        forall|a: int|
            0 <= a < ready_below(sv, dm, q, done, k).len() ==> (#[trigger] ready_below(
                sv,
                dm,
                q,
                done,
                k,
            )[a] as int) < k,
    decreases k,
{
    if k > 0 {
        lemma_ready_below_bound(sv, dm, q, done, k - 1);
        let rest = ready_below(sv, dm, q, done, k - 1);
        let r = ready_below(sv, dm, q, done, k);
        assert forall|a: int| 0 <= a < r.len() implies (#[trigger] r[a] as int) < k by {
            if a < rest.len() {
                assert(r[a] == rest[a]);
            }
        }
    }
}

proof fn lemma_missing_below_bound(q: Seq<usize>, k: int)
    requires
        0 <= k <= usize::MAX + 1,
    ensures
        forall|a: int|
            0 <= a < missing_below(q, k).len() ==> (#[trigger] missing_below(q, k)[a] as int) < k,
    decreases k,
{
    if k > 0 {
        lemma_missing_below_bound(q, k - 1);
        let rest = missing_below(q, k - 1);
        let r = missing_below(q, k);
        assert forall|a: int| 0 <= a < r.len() implies (#[trigger] r[a] as int) < k by {
            if a < rest.len() {
                assert(r[a] == rest[a]);
            }
        }
    }
}

/// Some non-empty group of the services (listed by index in `g`) waits only
/// on services of the same group: a dependency cycle.
pub open spec fn has_waiting_group(sv: Seq<Seq<char>>, dm: Seq<(Seq<char>, Seq<Seq<char>>)>) -> bool {
    exists|g: Seq<int>|
        g.len() > 0 && forall|c: int| 0 <= c < g.len() ==> #[trigger] waits_within(sv, dm, g, c)
}

/// Entry `c` of the group `g` is a service that depends on a service of `g`.
pub open spec fn waits_within(
    sv: Seq<Seq<char>>,
    dm: Seq<(Seq<char>, Seq<Seq<char>>)>,
    g: Seq<int>,
    c: int,
) -> bool {
    &&& 0 <= g[c] < sv.len()
    &&& exists|j: int| #[trigger] depends(sv, dm, g[c], j) && g.contains(j)
}

proof fn lemma_distinct_below(q: Seq<usize>, n: int)
    requires
        0 <= n,
        q.no_duplicates(),
        forall|a: int| 0 <= a < q.len() ==> (#[trigger] q[a] as int) < n,
    ensures
        q.len() <= n,
{
    let f = |x: usize| x as int;
    let m = q.map_values(f);
    assert(injective(f));
    q.lemma_no_duplicates_injective(f);
    m.unique_seq_to_set();
    lemma_int_range(0, n);
    assert forall|x: int| m.to_set().contains(x) implies set_int_range(0, n).contains(x) by {
        let a = choose|a: int| 0 <= a < m.len() && m[a] == x;
        assert(q[a] as int == x);
    }
    lemma_len_subset(m.to_set(), set_int_range(0, n));
}

proof fn lemma_covering(q: Seq<usize>, n: int)
    requires
        0 <= n <= usize::MAX,
        forall|w: int| 0 <= w < n ==> #[trigger] q.contains(w as usize),
    ensures
        q.len() >= n,
{
    let f = |x: usize| x as int;
    let m = q.map_values(f);
    m.lemma_cardinality_of_set();
    lemma_int_range(0, n);
    assert forall|x: int| set_int_range(0, n).contains(x) implies m.to_set().contains(x) by {
        assert(q.contains(x as usize));
        let a = choose|a: int| 0 <= a < q.len() && q[a] == x as usize;
        assert(m[a] == q[a] as int);
        assert(m[a] == x);
    }
    lemma_len_subset(set_int_range(0, n), m.to_set());
}

fn find_entry(dm: &[(String, Vec<String>)], name: &String) -> (r: Option<usize>)
    ensures
        match r {
            Some(k) => k < dm@.len() && deps_of(dep_view(dm@), name@) == str_views(
                dm@[k as int].1@,
            ),
            None => deps_of(dep_view(dm@), name@) == Seq::<Seq<char>>::empty(),
        },
{
    let ghost dv = dep_view(dm@);
    let mut i: usize = 0;
    proof {
        assert(dv.skip(0) =~= dv);
    }
    while i < dm.len()
        invariant
            i <= dm@.len(),
            dv == dep_view(dm@),
            deps_of(dv, name@) == deps_of(dv.skip(i as int), name@),
        decreases dm.len() - i,
    {
        proof {
            assert(dv.skip(i as int)[0] == dv[i as int]);
            assert(dv.skip(i as int).drop_first() =~= dv.skip(i + 1));
        }
        if dm[i].0 == *name {
            return Some(i);
        }
        i += 1;
    }
    None
}

fn text_in(list: &Vec<String>, x: &String) -> (r: bool)
    ensures
        r == str_views(list@).contains(x@),
{
    let mut i: usize = 0;
    while i < list.len()
        invariant
            i <= list.len(),
            forall|j: int| 0 <= j < i ==> list@[j]@ != x@,
        decreases list.len() - i,
    {
        if list[i] == *x {
            proof {
                assert(str_views(list@)[i as int] == x@);
            }
            return true;
        }
        i += 1;
    }
    proof {
        if str_views(list@).contains(x@) {
            let j = choose|j: int| 0 <= j < str_views(list@).len() && str_views(list@)[j] == x@;
            assert(list@[j]@ == x@);
        }
    }
    false
}

/// `m[i][j]` says whether service `i` depends on service `j`.
fn dep_matrix(services: &[String], dm: &[(String, Vec<String>)]) -> (m: Vec<Vec<bool>>)
    ensures
        m@.len() == services@.len(),
        forall|i: int| 0 <= i < services@.len() ==> (#[trigger] m@[i])@.len() == services@.len(),
        forall|i: int, j: int|
            0 <= i < services@.len() && 0 <= j < services@.len() ==> (#[trigger] m@[i]@[j]
                == depends(str_views(services@), dep_view(dm@), i, j)),
{
    let ghost sv = str_views(services@);
    let n = services.len();
    let mut m: Vec<Vec<bool>> = Vec::new();
    let mut i: usize = 0;
    while i < n
        invariant
            i <= n,
            n == services@.len(),
            sv == str_views(services@),
            m@.len() == i,
            forall|a: int| 0 <= a < i ==> (#[trigger] m@[a])@.len() == n,
            forall|a: int, j: int|
                0 <= a < i && 0 <= j < n ==> (#[trigger] m@[a]@[j] == depends(sv, dep_view(dm@), a, j)),
        decreases n - i,
    {
        let e = find_entry(dm, &services[i]);
        let mut row: Vec<bool> = Vec::new();
        let mut j: usize = 0;
        while j < n
            invariant
                j <= n,
                i < n,
                n == services@.len(),
                sv == str_views(services@),
                row@.len() == j,
                match e {
                    Some(k) => k < dm@.len() && deps_of(dep_view(dm@), services@[i as int]@)
                        == str_views(dm@[k as int].1@),
                    None => deps_of(dep_view(dm@), services@[i as int]@) == Seq::<
                        Seq<char>,
                    >::empty(),
                },
                forall|b: int| 0 <= b < j ==> (#[trigger] row@[b] == depends(sv, dep_view(dm@), i as int, b)),
            decreases n - j,
        {
            let b = match e {
                Some(k) => text_in(&dm[k].1, &services[j]),
                None => false,
            };
            proof {
                assert(sv[i as int] == services@[i as int]@);
                assert(sv[j as int] == services@[j as int]@);
            }
            row.push(b);
            j += 1;
        }
        m.push(row);
        i += 1;
    }
    m
}

/// Every service marked in `row` is marked in `done`.
fn all_marked(row: &Vec<bool>, done: &Vec<bool>) -> (r: bool)
    requires
        row@.len() == done@.len(),
    ensures
        r == (forall|j: int| 0 <= j < done@.len() && #[trigger] row@[j] ==> done@[j]),
{
    let mut j: usize = 0;
    while j < row.len()
        invariant
            j <= row@.len(),
            row@.len() == done@.len(),
            forall|b: int| 0 <= b < j && #[trigger] row@[b] ==> done@[b],
        decreases row.len() - j,
    {
        if row[j] && !done[j] {
            return false;
        }
        j += 1;
    }
    true
}

/// All dependencies of service `v` are marked in `done`.
pub open spec fn ready(m: Seq<Vec<bool>>, v: int, done: Seq<bool>) -> bool {
    forall|j: int| 0 <= j < done.len() && #[trigger] m[v]@[j] ==> done[j]
}

proof fn lemma_ready_iff(
    sv: Seq<Seq<char>>,
    dm: Seq<(Seq<char>, Seq<Seq<char>>)>,
    m: Seq<Vec<bool>>,
    v: int,
    done: Seq<bool>,
    t: Seq<usize>,
)
    requires
        sv.len() <= usize::MAX,
        m.len() == sv.len(),
        forall|i: int| 0 <= i < sv.len() ==> (#[trigger] m[i])@.len() == sv.len(),
        forall|i: int, j: int|
            0 <= i < sv.len() && 0 <= j < sv.len() ==> (#[trigger] m[i]@[j] == depends(sv, dm, i, j)),
        done.len() == sv.len(),
        forall|w: int| 0 <= w < sv.len() ==> (#[trigger] done[w] <==> t.contains(w as usize)),
        0 <= v < sv.len(),
    ensures
        ready(m, v, done) <==> dep_ready(sv, dm, v, t),
{
    if ready(m, v, done) {
        assert forall|j: int| #[trigger] depends(sv, dm, v, j) implies t.contains(j as usize) by {
            assert(m[v]@[j]);
            assert(done[j]);
        }
    }
    if dep_ready(sv, dm, v, t) {
        assert forall|j: int| 0 <= j < done.len() && #[trigger] m[v]@[j] implies done[j] by {
            assert(depends(sv, dm, v, j));
        }
    }
}

/// Dependency order by service index: services become ready once all their
/// dependencies have been started, and ready services start first-come
/// first-served; services left over (caught in a cycle) follow in list order.
fn start_order_indices(services: &[String], dm: &[(String, Vec<String>)]) -> (r: (
    Vec<usize>,
    Ghost<int>,
))
    ensures
        start_order_at(str_views(services@), dep_view(dm@), r.0@, r.1@),
        r.0@ == start_indices(str_views(services@), dep_view(dm@)),
{
    let ghost sv = str_views(services@);
    let ghost dv = dep_view(dm@);
    let n = services.len();
    let m = dep_matrix(services, dm);
    let mut q: Vec<usize> = Vec::new();
    let mut done: Vec<bool> = Vec::new();
    let mut inq: Vec<bool> = Vec::new();
    let mut v: usize = 0;
    while v < n
        invariant
            v <= n,
            done@.len() == v,
            inq@.len() == v,
            forall|w: int| 0 <= w < v ==> !(#[trigger] done@[w]),
            forall|w: int| 0 <= w < v ==> !(#[trigger] inq@[w]),
        decreases n - v,
    {
        done.push(false);
        inq.push(false);
        v += 1;
    }
    // services without dependencies, in list order
    let mut v: usize = 0;
    while v < n
        invariant
            v <= n,
            n == services@.len(),
            sv == str_views(services@),
            dv == dep_view(dm@),
            forall|i: int, j: int|
                0 <= i < n && 0 <= j < n ==> (#[trigger] m@[i]@[j] == depends(sv, dv, i, j)),
            q@ == ready_below(sv, dv, Seq::empty(), Seq::empty(), v as int),
            m@.len() == n,
            forall|i: int| 0 <= i < n ==> (#[trigger] m@[i])@.len() == n,
            done@.len() == n,
            inq@.len() == n,
            forall|w: int| 0 <= w < n ==> !(#[trigger] done@[w]),
            forall|a: int| 0 <= a < q@.len() ==> (#[trigger] q@[a] as int) < v,
            q@.no_duplicates(),
            forall|w: int| 0 <= w < n ==> (#[trigger] inq@[w] <==> q@.contains(w as usize)),
            forall|w: int| 0 <= w < v ==> (#[trigger] inq@[w] <==> ready(m@, w, done@)),
            forall|w: int| v <= w < n ==> !(#[trigger] inq@[w]),
            forall|a: int, j: int|
                0 <= a < q@.len() && 0 <= j < n && #[trigger] m@[q@[a] as int]@[j] ==> exists|
                    b: int,
                | 0 <= b < a && q@[b] as int == j,
        decreases n - v,
    {
        proof {
            lemma_ready_iff(sv, dv, m@, v as int, done@, Seq::empty());
        }
        if all_marked(&m[v], &done) {
            proof {
                assert forall|j: int| 0 <= j < n implies !(#[trigger] m@[v as int]@[j]) by {
                    if m@[v as int]@[j] {
                        assert(done@[j]);
                    }
                }
                assert forall|w: int| 0 <= w < n implies (#[trigger] inq@.update(
                    v as int,
                    true,
                )[w] <==> q@.push(v).contains(w as usize)) by {
                    if w != v {
                        if q@.push(v).contains(w as usize) {
                            let a = choose|a: int|
                                0 <= a < q@.push(v).len() && q@.push(v)[a] == w as usize;
                            assert(q@.contains(w as usize));
                        }
                    } else {
                        assert(q@.push(v)[q@.len() as int] == v);
                    }
                }
            }
            let ghost qb = q@;
            q.push(v);
            inq.set(v, true);
            proof {
                assert forall|a: int, j: int|
                    0 <= a < q@.len() && 0 <= j < n && #[trigger] m@[q@[a] as int]@[j] implies exists|
                    b: int,
                | 0 <= b < a && q@[b] as int == j by {
                    if a < qb.len() {
                        assert(q@[a] == qb[a]);
                        let b = choose|b: int| 0 <= b < a && qb[b] as int == j;
                        assert(q@[b] == qb[b]);
                    } else {
                        assert(q@[a] == v);
                    }
                }
                assert forall|a: int, b: int|
                    0 <= a < q@.len() && 0 <= b < q@.len() && a != b implies q@[a] != q@[b] by {
                    if a < qb.len() && b == qb.len() {
                        assert(qb.contains(qb[a]));
                    }
                    if b < qb.len() && a == qb.len() {
                        assert(qb.contains(qb[b]));
                    }
                }
            }
        }
        v += 1;
    }
    let mut head: usize = 0;
    proof {
        lemma_distinct_below(q@, n as int);
    }
    let ghost q_init = q@;
    let ghost kq = kahn_queue(sv, dv, q_init, 0, (n + 1) as nat);
    while head < q.len()
        invariant
            n == services@.len(),
            sv == str_views(services@),
            dv == dep_view(dm@),
            forall|i: int, j: int|
                0 <= i < n && 0 <= j < n ==> (#[trigger] m@[i]@[j] == depends(sv, dv, i, j)),
            kahn_queue(sv, dv, q@, head as nat, (n + 1 - head) as nat) == kq,
            m@.len() == n,
            forall|i: int| 0 <= i < n ==> (#[trigger] m@[i])@.len() == n,
            done@.len() == n,
            inq@.len() == n,
            head <= q@.len() <= n,
            forall|a: int| 0 <= a < q@.len() ==> (#[trigger] q@[a] as int) < n,
            q@.no_duplicates(),
            forall|w: int|
                0 <= w < n ==> (#[trigger] done@[w] <==> q@.take(head as int).contains(w as usize)),
            forall|w: int| 0 <= w < n ==> (#[trigger] inq@[w] <==> q@.contains(w as usize)),
            forall|w: int| 0 <= w < n ==> (#[trigger] inq@[w] <==> ready(m@, w, done@)),
            forall|a: int, j: int|
                0 <= a < q@.len() && 0 <= j < n && #[trigger] m@[q@[a] as int]@[j] ==> exists|
                    b: int,
                | 0 <= b < a && q@[b] as int == j,
        decreases n - head,
    {
        let u = q[head];
        let ghost done0 = done@;
        let ghost q0 = q@;
        proof {
            let t0 = q@.take(head as int);
            let t1 = q@.take(head + 1);
            assert(t1 =~= t0.push(u));
            assert forall|w: int|
                0 <= w < n implies (#[trigger] done@.update(u as int, true)[w] <==> t1.contains(
                w as usize,
            )) by {
                if w != u {
                    if t1.contains(w as usize) {
                        let a = choose|a: int| 0 <= a < t1.len() && t1[a] == w as usize;
                        assert(t0[a] == w as usize);
                    }
                    if t0.contains(w as usize) {
                        let a = choose|a: int| 0 <= a < t0.len() && t0[a] == w as usize;
                        assert(t1[a] == w as usize);
                    }
                } else {
                    assert(t1[head as int] == u);
                }
            }
        }
        done.set(u, true);
        head += 1;
        proof {
            assert(q0.take(head as int) == q@.take(head as int));
        }
        let mut v: usize = 0;
        while v < n
            invariant
                n == services@.len(),
                sv == str_views(services@),
                dv == dep_view(dm@),
                forall|i: int, j: int|
                    0 <= i < n && 0 <= j < n ==> (#[trigger] m@[i]@[j] == depends(sv, dv, i, j)),
                q@ == q0 + ready_below(sv, dv, q0, q0.take(head as int), v as int),
                m@.len() == n,
                forall|i: int| 0 <= i < n ==> (#[trigger] m@[i])@.len() == n,
                done@.len() == n,
                inq@.len() == n,
                done0.len() == n,
                0 <= u < n,
                v <= n,
                head <= q@.len(),
                q0.len() <= q@.len(),
                head <= q0.len(),
                forall|a: int| 0 <= a < q0.len() ==> q@[a] == q0[a],
                done@ == done0.update(u as int, true),
                forall|a: int| 0 <= a < q@.len() ==> (#[trigger] q@[a] as int) < n,
                q@.no_duplicates(),
                forall|w: int|
                    0 <= w < n ==> (#[trigger] done@[w] <==> q@.take(head as int).contains(
                        w as usize,
                    )),
                forall|w: int| 0 <= w < n ==> (#[trigger] inq@[w] <==> q@.contains(w as usize)),
                forall|w: int| 0 <= w < v ==> (#[trigger] inq@[w] <==> ready(m@, w, done@)),
                forall|w: int| v <= w < n ==> (#[trigger] inq@[w] <==> ready(m@, w, done0)),
                forall|a: int, j: int|
                    0 <= a < q@.len() && 0 <= j < n && #[trigger] m@[q@[a] as int]@[j] ==> exists|
                        b: int,
                    | 0 <= b < a && q@[b] as int == j,
            decreases n - v,
        {
            let ghost qb = q@;
            proof {
                lemma_ready_below_bound(sv, dv, q0, q0.take(head as int), v as int);
                assert(q@.take(head as int) =~= q0.take(head as int));
                lemma_ready_iff(sv, dv, m@, v as int, done@, q0.take(head as int));
                if q@.contains(v) {
                    let a = choose|a: int| 0 <= a < q@.len() && q@[a] == v;
                    if a >= q0.len() {
                        assert(q@[a] == ready_below(sv, dv, q0, q0.take(head as int), v as int)[a
                            - q0.len()]);
                    }
                    assert(q0.contains(v));
                }
                if q0.contains(v) {
                    let a = choose|a: int| 0 <= a < q0.len() && q0[a] == v;
                    assert(q@[a] == v);
                }
            }
            if !inq[v] && all_marked(&m[v], &done) {
                proof {
                    assert forall|w: int| 0 <= w < n implies (#[trigger] inq@.update(
                        v as int,
                        true,
                    )[w] <==> q@.push(v).contains(w as usize)) by {
                        if w != v {
                            if q@.push(v).contains(w as usize) {
                                let a = choose|a: int|
                                    0 <= a < q@.push(v).len() && q@.push(v)[a] == w as usize;
                                assert(q@.contains(w as usize));
                            }
                        } else {
                            assert(q@.push(v)[q@.len() as int] == v);
                        }
                    }
                    assert(!q@.contains(v));
                    assert forall|a: int, b: int|
                        0 <= a < q@.push(v).len() && 0 <= b < q@.push(v).len() && a != b implies q@.push(
                        v,
                    )[a] != q@.push(v)[b] by {
                        if a < q@.len() && b == q@.len() {
                            assert(q@.contains(q@[a]));
                        }
                        if b < q@.len() && a == q@.len() {
                            assert(q@.contains(q@[b]));
                        }
                    }
                    assert forall|j: int|
                        0 <= j < n && #[trigger] m@[v as int]@[j] implies exists|b: int|
                        0 <= b < q@.len() && q@[b] as int == j by {
                        assert(done@[j]);
                        assert(q@.take(head as int).contains(j as usize));
                        let b = choose|b: int|
                            0 <= b < q@.take(head as int).len() && q@.take(head as int)[b]
                                == j as usize;
                        assert(q@[b] as int == j);
                    }
                    assert forall|w: int|
                        0 <= w < n implies (#[trigger] done@[w] <==> q@.push(v).take(
                        head as int,
                    ).contains(w as usize)) by {
                        assert(q@.push(v).take(head as int) =~= q@.take(head as int));
                    }
                }
                q.push(v);
                inq.set(v, true);
                proof {
                    assert(q@ =~= q0 + ready_below(sv, dv, q0, q0.take(head as int), v + 1));
                    assert forall|a: int, j: int|
                        0 <= a < q@.len() && 0 <= j < n && #[trigger] m@[q@[a] as int]@[j] implies exists|
                        b: int,
                    | 0 <= b < a && q@[b] as int == j by {
                        if a < qb.len() {
                            assert(q@[a] == qb[a]);
                            let b = choose|b: int| 0 <= b < a && qb[b] as int == j;
                            assert(q@[b] == qb[b]);
                        } else {
                            assert(q@[a] == v);
                            let b = choose|b: int| 0 <= b < qb.len() && qb[b] as int == j;
                            assert(q@[b] == qb[b]);
                        }
                    }
                }
            } else {
                proof {
                    // a service waiting on `u` alone becomes ready now; any other was ready before
                    if !inq@[v as int] {
                        assert(!ready(m@, v as int, done0));
                    }
                    assert(q@ =~= q0 + ready_below(sv, dv, q0, q0.take(head as int), v + 1));
                }
            }
            proof {
                lemma_distinct_below(q@, n as int);
            }
            v += 1;
        }
        proof {
            lemma_distinct_below(q@, n as int);
            assert(q0.take(head as int) == q0.take((head - 1) + 1));
            assert(kahn_queue(sv, dv, q0, (head - 1) as nat, (n + 1 - (head - 1)) as nat)
                == kahn_queue(sv, dv, q@, head as nat, (n + 1 - head) as nat));
        }
    }
    // services caught in a cycle, in list order
    let k = q.len();
    let ghost qk = q@;
    proof {
        assert(q@.take(head as int) =~= q@);
    }
    proof {
        assert(kq == qk);
    }
    let mut ix = q;
    let mut v: usize = 0;
    while v < n
        invariant
            n == services@.len(),
            ix@ == qk + missing_below(qk, v as int),
            v <= n,
            k == qk.len(),
            k <= ix@.len(),
            inq@.len() == n,
            forall|a: int| 0 <= a < k ==> ix@[a] == qk[a],
            forall|w: int| 0 <= w < n ==> (#[trigger] inq@[w] <==> qk.contains(w as usize)),
            forall|a: int| 0 <= a < qk.len() ==> (#[trigger] qk[a] as int) < n,
            qk.no_duplicates(),
            forall|a: int| k <= a < ix@.len() ==> (#[trigger] ix@[a] as int) < v && !inq@[ix@[a] as int],
            forall|a: int, b: int| k <= a < b < ix@.len() ==> ix@[a] < ix@[b],
            forall|w: int|
                0 <= w < v && !(#[trigger] inq@[w]) ==> exists|a: int|
                    k <= a < ix@.len() && ix@[a] as int == w,
        decreases n - v,
    {
        let ghost ib = ix@;
        if !inq[v] {
            ix.push(v);
            proof {
                assert(ix@ =~= qk + missing_below(qk, v + 1));
                assert(ix@[ib.len() as int] == v);
                assert forall|w: int|
                    0 <= w < v + 1 && !(#[trigger] inq@[w]) implies exists|a: int|
                    k <= a < ix@.len() && ix@[a] as int == w by {
                    if w < v {
                        let a = choose|a: int| k <= a < ib.len() && ib[a] as int == w;
                        assert(ix@[a] == ib[a]);
                    } else {
                        assert(ix@[ib.len() as int] as int == w);
                    }
                }
            }
        }
        v += 1;
    }
    proof {
        let ixs = ix@;
        assert forall|a: int| 0 <= a < ixs.len() implies (#[trigger] ixs[a] as int) < n by {
            if a < k {
                assert(ixs[a] == qk[a]);
            }
        }
        assert(ixs.no_duplicates()) by {
            assert forall|a: int, b: int|
                0 <= a < ixs.len() && 0 <= b < ixs.len() && a != b implies ixs[a] != ixs[b] by {
                if a < k && b < k {
                    assert(ixs[a] == qk[a] && ixs[b] == qk[b]);
                } else if a < k && b >= k {
                    assert(qk.contains(qk[a]));
                    assert(inq@[ixs[a] as int]);
                } else if a >= k && b < k {
                    assert(qk.contains(qk[b]));
                    assert(inq@[ixs[b] as int]);
                } else if a < b {
                } else {
                }
            }
        }
        lemma_distinct_below(ixs, n as int);
        assert forall|w: int| 0 <= w < n implies #[trigger] ixs.contains(w as usize) by {
            if inq@[w] {
                let a = choose|a: int| 0 <= a < qk.len() && qk[a] == w as usize;
                assert(ixs[a] == qk[a]);
            } else {
                let a = choose|a: int| k <= a < ixs.len() && ixs[a] as int == w;
                assert(ixs[a] == w as usize);
            }
        }
        lemma_covering(ixs, n as int);
        // ordered part
        assert forall|a: int, j: int|
            0 <= a < k && #[trigger] depends(sv, dep_view(dm@), ixs[a] as int, j) implies exists|b: int|
            0 <= b < a && ixs[b] as int == j by {
            assert(ixs[a] == qk[a]);
            assert(m@[qk[a] as int]@[j]);
            let b = choose|b: int| 0 <= b < a && qk[b] as int == j;
            assert(ixs[b] == qk[b]);
        }
        // waiting part
        assert forall|a: int| k <= a < n implies #[trigger] waits_on_rest(
            sv,
            dep_view(dm@),
            ixs,
            k as int,
            a,
        ) by {
            let w = ixs[a] as int;
            assert(!inq@[w]);
            assert(!ready(m@, w, done@));
            let j = choose|j: int| 0 <= j < done@.len() && #[trigger] m@[w]@[j] && !done@[j];
            assert(!qk.take(head as int).contains(j as usize));
            assert(!inq@[j]);
            let b = choose|b: int| k <= b < ixs.len() && ixs[b] as int == j;
            assert(depends(sv, dep_view(dm@), w, j));
            assert(k <= b < ixs.len() && ixs[b] as int == j);
        }
        assert(start_order_at(sv, dep_view(dm@), ixs, k as int));
    }
    (ix, Ghost(k as int))
}

/// Picks `services[ix[a]]` for each `a`.
fn names_of(services: &[String], ix: &Vec<usize>) -> (r: Vec<String>)
    requires
        forall|a: int| 0 <= a < ix@.len() ==> (#[trigger] ix@[a] as int) < services@.len(),
    ensures
        str_views(r@) == names_at(str_views(services@), ix@),
{
    let mut r: Vec<String> = Vec::new();
    let mut a: usize = 0;
    while a < ix.len()
        invariant
            a <= ix@.len(),
            forall|b: int| 0 <= b < ix@.len() ==> (#[trigger] ix@[b] as int) < services@.len(),
            str_views(r@) == names_at(str_views(services@), ix@).take(a as int),
        decreases ix.len() - a,
    {
        let s = services[ix[a]].clone();
        proof {
            crate::text::lemma_str_views_push(r@, s);
            assert(names_at(str_views(services@), ix@).take(a + 1) =~= names_at(
                str_views(services@),
                ix@,
            ).take(a as int).push(s@));
        }
        r.push(s);
        a += 1;
    }
    proof {
        assert(names_at(str_views(services@), ix@).take(ix@.len() as int) =~= names_at(
            str_views(services@),
            ix@,
        ));
    }
    r
}

// ---------------------------------------------------------------------------
// Start order of a list that names a service more than once
// ---------------------------------------------------------------------------
/// Position of the first `x` in `sv` (`sv.len()` where there is none).
pub open spec fn first_pos(sv: Seq<Seq<char>>, x: Seq<char>) -> int
    decreases sv.len(),
{
    if sv.len() == 0 {
        0
    } else if sv[0] == x {
        0
    } else {
        1 + first_pos(sv.drop_first(), x)
    }
}

/// Each listed service by the position of its name's first listing.
pub open spec fn name_ids(sv: Seq<Seq<char>>) -> Seq<usize> {
    Seq::new(sv.len(), |i: int| first_pos(sv, sv[i]) as usize)
}

/// Dependency edges of one listing with name `t`: `(t, first position of d)`
/// for each dependency `d` in `deps` that is listed, in order.
pub open spec fn entry_edges(sv: Seq<Seq<char>>, t: usize, deps: Seq<Seq<char>>) -> Seq<(usize, usize)>
    decreases deps.len(),
{
    if deps.len() == 0 {
        Seq::empty()
    } else {
        let r = entry_edges(sv, t, deps.drop_last());
        if sv.contains(deps.last()) {
            r.push((t, first_pos(sv, deps.last()) as usize))
        } else {
            r
        }
    }
}

/// Dependency edges of the first `i` listings, in order.
pub open spec fn dep_edges(sv: Seq<Seq<char>>, dm: Seq<(Seq<char>, Seq<Seq<char>>)>, i: int) -> Seq<
    (usize, usize),
>
    decreases i,
{
    if i <= 0 {
        Seq::empty()
    } else {
        dep_edges(sv, dm, i - 1) + entry_edges(sv, first_pos(sv, sv[i - 1]) as usize, deps_of(dm, sv[i - 1]))
    }
}

/// Number of edges into `u`.
pub open spec fn in_count(es: Seq<(usize, usize)>, u: usize) -> int
    decreases es.len(),
{
    if es.len() == 0 {
        0
    } else {
        in_count(es.drop_last(), u) + if es.last().0 == u {
            1int
        } else {
            0int
        }
    }
}

/// The counter of each name: the number of its dependency edges.
pub open spec fn initial_counts(es: Seq<(usize, usize)>, n: int) -> Seq<int> {
    Seq::new(n as nat, |u: int| in_count(es, u as usize))
}

/// The first `i` listings whose name's counter is zero, in list order (a
/// name listed twice is queued twice).
pub open spec fn zero_queue(sv: Seq<Seq<char>>, cnt: Seq<int>, i: int) -> Seq<usize>
    decreases i,
{
    if i <= 0 {
        Seq::empty()
    } else {
        let r = zero_queue(sv, cnt, i - 1);
        let t = first_pos(sv, sv[i - 1]);
        if cnt[t] == 0 {
            r.push(t as usize)
        } else {
            r
        }
    }
}

/// A counter after one decrement; a counter taken past zero stays spent
/// (the counter is an unsigned word, which a decrement at zero wraps round
/// to its largest value, out of reach of zero again).
pub open spec fn spend(c: int) -> int {
    if c > 0 {
        c - 1
    } else {
        -1
    }
}

/// Starting `u`: each edge from `k` on that leads from some `t` to `u`, in
/// order, counts `t` down, and `t` is queued when its counter reaches zero.
pub open spec fn relax(es: Seq<(usize, usize)>, u: usize, k: int, cnt: Seq<int>, q: Seq<usize>) -> (
    Seq<int>,
    Seq<usize>,
)
    decreases es.len() - k,
{
    if k < 0 || k >= es.len() {
        (cnt, q)
    } else if es[k].1 == u {
        let t = es[k].0 as int;
        let c = spend(cnt[t]);
        relax(es, u, k + 1, cnt.update(t, c), if c == 0 { q.push(es[k].0) } else { q })
    } else {
        relax(es, u, k + 1, cnt, q)
    }
}

/// Starts the queued names in turn from `head`, queueing what each makes
/// ready, until the queue is used up (`fuel` bounds the rounds).
pub open spec fn drain(es: Seq<(usize, usize)>, q: Seq<usize>, head: nat, cnt: Seq<int>, fuel: nat) -> Seq<
    usize,
>
    decreases fuel,
{
    if fuel == 0 || head >= q.len() {
        q
    } else {
        let r = relax(es, q[head as int], 0, cnt, q);
        drain(es, r.1, head + 1, r.0, (fuel - 1) as nat)
    }
}

/// `cur` followed by each listed name from listing `i` on that it does not
/// hold yet, in list order.
pub open spec fn fill(sv: Seq<Seq<char>>, cur: Seq<usize>, i: int) -> Seq<usize>
    decreases sv.len() - i,
{
    if i < 0 || i >= sv.len() {
        cur
    } else {
        let t = first_pos(sv, sv[i]) as usize;
        fill(sv, if cur.contains(t) { cur } else { cur.push(t) }, i + 1)
    }
}

/// The start order of a list that may name a service more than once, by
/// name position: each name counts its listed dependencies once per listing
/// of it; the listings whose count is zero are queued in list order; starting
/// a name counts down, once per edge, each name that depends on it, queueing
/// it when its count reaches zero; if fewer names were started than there
/// are listings, each name not started follows in list order.  (No name is
/// queued more often than it is listed, so `n + 1` rounds use up the queue.)
pub open spec fn counted_start_ids(sv: Seq<Seq<char>>, dm: Seq<(Seq<char>, Seq<Seq<char>>)>) -> Seq<
    usize,
> {
    let n = sv.len() as int;
    let es = dep_edges(sv, dm, n);
    let c0 = initial_counts(es, n);
    let q = drain(es, zero_queue(sv, c0, n), 0, c0, (n + 1) as nat);
    if q.len() < n {
        fill(sv, q, 0)
    } else {
        q
    }
}

/// The order in which the services listed in `sv` start: `start_order` for
/// a list of distinct names, the counted order of `counted_start_ids` for a
/// list that names a service more than once.
pub open spec fn service_start_order(sv: Seq<Seq<char>>, dm: Seq<(Seq<char>, Seq<Seq<char>>)>) -> Seq<
    Seq<char>,
> {
    if sv.no_duplicates() {
        start_order(sv, dm)
    } else {
        names_at(sv, counted_start_ids(sv, dm))
    }
}

proof fn lemma_first_pos(sv: Seq<Seq<char>>, x: Seq<char>)
    ensures
        0 <= first_pos(sv, x) <= sv.len(),
        first_pos(sv, x) < sv.len() ==> sv[first_pos(sv, x)] == x,
        forall|k: int| 0 <= k < first_pos(sv, x) ==> sv[k] != x,
        first_pos(sv, x) == sv.len() <==> !sv.contains(x),
    decreases sv.len(),
{
    if sv.len() > 0 && sv[0] != x {
        lemma_first_pos(sv.drop_first(), x);
        assert forall|k: int| 0 <= k < first_pos(sv, x) implies sv[k] != x by {
            if k > 0 {
                assert(sv[k] == sv.drop_first()[k - 1]);
            }
        }
        if sv.contains(x) {
            let k = choose|k: int| 0 <= k < sv.len() && sv[k] == x;
            assert(sv.drop_first()[k - 1] == x);
        }
        if sv.drop_first().contains(x) {
            let k = choose|k: int| 0 <= k < sv.drop_first().len() && sv.drop_first()[k] == x;
            assert(sv[k + 1] == x);
        }
    } else if sv.len() > 0 {
        assert(sv.contains(x)) by {
            assert(sv[0] == x);
        }
    }
}

fn first_pos_exec(services: &[String], x: &String) -> (r: usize)
    ensures
        r as int == first_pos(str_views(services@), x@),
{
    let ghost sv = str_views(services@);
    proof {
        lemma_first_pos(sv, x@);
    }
    let mut j: usize = 0;
    while j < services.len()
        invariant
            j <= services@.len(),
            sv == str_views(services@),
            forall|k: int| 0 <= k < j ==> sv[k] != x@,
            0 <= first_pos(sv, x@) <= sv.len(),
            first_pos(sv, x@) < sv.len() ==> sv[first_pos(sv, x@)] == x@,
            forall|k: int| 0 <= k < first_pos(sv, x@) ==> sv[k] != x@,
        decreases services.len() - j,
    {
        if services[j] == *x {
            proof {
                assert(sv[j as int] == x@);
            }
            return j;
        }
        proof {
            assert(sv[j as int] != x@);
        }
        j += 1;
    }
    j
}

fn contains_id(v: &Vec<usize>, t: usize) -> (r: bool)
    ensures
        r == v@.contains(t),
{
    let mut i: usize = 0;
    while i < v.len()
        invariant
            i <= v@.len(),
            forall|k: int| 0 <= k < i ==> v@[k] != t,
        decreases v.len() - i,
    {
        if v[i] == t {
            return true;
        }
        i += 1;
    }
    false
}

proof fn lemma_in_count_edge(es: Seq<(usize, usize)>, u: usize)
    requires
        in_count(es, u) > 0,
    ensures
        exists|k: int| 0 <= k < es.len() && es[k].0 == u,
    decreases es.len(),
{
    if es.last().0 == u {
        assert(es[es.len() - 1].0 == u);
    } else {
        lemma_in_count_edge(es.drop_last(), u);
        let k = choose|k: int| 0 <= k < es.drop_last().len() && es.drop_last()[k].0 == u;
        assert(es[k].0 == u);
    }
}

proof fn lemma_in_count_nonneg(es: Seq<(usize, usize)>, u: usize)
    ensures
        0 <= in_count(es, u) <= es.len(),
    decreases es.len(),
{
    if es.len() > 0 {
        lemma_in_count_nonneg(es.drop_last(), u);
    }
}

/// A queue that holds no name more often than `ids` lists it is no longer
/// than `ids`.
proof fn lemma_count_bound(q: Seq<usize>, ids: Seq<usize>)
    requires
        forall|u: usize| q.to_multiset().count(u) <= ids.to_multiset().count(u),
    ensures
        q.len() <= ids.len(),
    decreases q.len(),
{
    broadcast use vstd::seq_lib::group_to_multiset_ensures;

    if q.len() > 0 {
        let x = q.last();
        let q1 = q.drop_last();
        assert(q1.push(x) =~= q);
        assert(q.to_multiset().count(x) > 0);
        assert(ids.contains(x));
        let k = choose|k: int| 0 <= k < ids.len() && ids[k] == x;
        let ids1 = ids.remove(k);
        assert forall|u: usize| q1.to_multiset().count(u) <= ids1.to_multiset().count(u) by {
            assert(q.to_multiset() =~= q1.to_multiset().insert(x));
            assert(ids1.to_multiset() =~= ids.to_multiset().remove(ids[k]));
        }
        lemma_count_bound(q1, ids1);
    }
}

/// Expected number of times name `u` sits in the queue: as often as it is
/// listed when it had no dependency to wait for, once when its counter has
/// reached zero, never otherwise.
pub open spec fn queued_times(ids: Seq<usize>, c0: Seq<int>, cnt: Seq<int>, u: usize) -> nat {
    if c0[u as int] == 0 {
        ids.to_multiset().count(u)
    } else if cnt[u as int] <= 0 {
        1
    } else {
        0
    }
}

fn name_ids_exec(services: &[String]) -> (r: Vec<usize>)
    ensures
        r@ == name_ids(str_views(services@)),
        forall|i: int| 0 <= i < r@.len() ==> (#[trigger] r@[i] as int) < services@.len(),
{
    let ghost sv = str_views(services@);
    let mut r: Vec<usize> = Vec::new();
    let mut i: usize = 0;
    while i < services.len()
        invariant
            i <= services@.len(),
            sv == str_views(services@),
            r@ == name_ids(sv).take(i as int),
            forall|k: int| 0 <= k < r@.len() ==> (#[trigger] r@[k] as int) < services@.len(),
        decreases services.len() - i,
    {
        let t = first_pos_exec(services, &services[i]);
        proof {
            lemma_first_pos(sv, sv[i as int]);
            assert(sv.contains(sv[i as int]));
            assert(name_ids(sv).take(i + 1) =~= name_ids(sv).take(i as int).push(t));
        }
        r.push(t);
        i += 1;
    }
    proof {
        assert(name_ids(sv).take(i as int) =~= name_ids(sv));
    }
    r
}

/// The dependency edges of all listings.
fn dep_edges_exec(services: &[String], dm: &[(String, Vec<String>)], ids: &Vec<usize>) -> (r: Vec<
    (usize, usize),
>)
    requires
        ids@ == name_ids(str_views(services@)),
    ensures
        r@ == dep_edges(str_views(services@), dep_view(dm@), services@.len() as int),
        forall|k: int|
            0 <= k < r@.len() ==> (#[trigger] r@[k]).0 < services@.len() && r@[k].1 < services@.len()
                && ids@.contains(r@[k].0),
{
    let ghost sv = str_views(services@);
    let ghost dv = dep_view(dm@);
    let n = services.len();
    let mut es: Vec<(usize, usize)> = Vec::new();
    let mut i: usize = 0;
    while i < n
        invariant
            i <= n,
            n == services@.len(),
            sv == str_views(services@),
            dv == dep_view(dm@),
            ids@ == name_ids(sv),
            es@ == dep_edges(sv, dv, i as int),
            forall|k: int|
                0 <= k < es@.len() ==> (#[trigger] es@[k]).0 < n && es@[k].1 < n && ids@.contains(
                    es@[k].0,
                ),
        decreases n - i,
    {
        let t = ids[i];
        let e = find_entry(dm, &services[i]);
        let empty: Vec<String> = Vec::new();
        let deps: &Vec<String> = match e {
            Some(k) => &dm[k].1,
            None => &empty,
        };
        proof {
            assert(str_views(deps@) == deps_of(dv, sv[i as int]));
            assert(ids@.contains(t)) by {
                assert(ids@[i as int] == t);
            }
            lemma_first_pos(sv, sv[i as int]);
            assert(sv.contains(sv[i as int]));
        }
        let ghost base = es@;
        let mut j: usize = 0;
        while j < deps.len()
            invariant
                j <= deps@.len(),
                n == services@.len(),
                i < n,
                sv == str_views(services@),
                t as int == first_pos(sv, sv[i as int]),
                (t as int) < n,
                ids@.contains(t),
                es@ == base + entry_edges(sv, t, str_views(deps@).take(j as int)),
                forall|k: int|
                    0 <= k < es@.len() ==> (#[trigger] es@[k]).0 < n && es@[k].1 < n && ids@.contains(
                        es@[k].0,
                    ),
            decreases deps.len() - j,
        {
            let f = first_pos_exec(services, &deps[j]);
            proof {
                lemma_first_pos(sv, deps@[j as int]@);
                assert(str_views(deps@).take(j + 1).drop_last() =~= str_views(deps@).take(j as int));
                assert(str_views(deps@).take(j + 1).last() == deps@[j as int]@);
            }
            if f < n {
                proof {
                    assert(sv.contains(deps@[j as int]@));
                }
                let ghost before = es@;
                es.push((t, f));
                proof {
                    assert(es@ =~= base + entry_edges(sv, t, str_views(deps@).take(j + 1)));
                }
            } else {
                proof {
                    assert(!sv.contains(deps@[j as int]@));
                }
            }
            j += 1;
        }
        proof {
            assert(str_views(deps@).take(j as int) =~= str_views(deps@));
            assert(es@ =~= dep_edges(sv, dv, i + 1));
        }
        i += 1;
    }
    es
}

/// The start ids of a list that may name a service more than once.
fn counted_start_ids_exec(services: &[String], dm: &[(String, Vec<String>)]) -> (r: Vec<usize>)
    ensures
        r@ == counted_start_ids(str_views(services@), dep_view(dm@)),
        forall|a: int| 0 <= a < r@.len() ==> (#[trigger] r@[a] as int) < services@.len(),
{
    broadcast use vstd::seq_lib::group_to_multiset_ensures;

    let ghost sv = str_views(services@);
    let ghost dv = dep_view(dm@);
    let n = services.len();
    let ids = name_ids_exec(services);
    let es = dep_edges_exec(services, dm, &ids);
    let ghost c0 = initial_counts(es@, n as int);
    // the counters
    let mut cnt: Vec<i128> = Vec::new();
    let mut u: usize = 0;
    while u < n
        invariant
            u <= n,
            cnt@.len() == u,
            forall|w: int| 0 <= w < u ==> cnt@[w] == 0,
        decreases n - u,
    {
        cnt.push(0);
        u += 1;
    }
    let mut k: usize = 0;
    while k < es.len()
        invariant
            k <= es@.len(),
            cnt@.len() == n,
            forall|m: int| 0 <= m < es@.len() ==> (#[trigger] es@[m]).0 < n,
            forall|w: int| 0 <= w < n ==> (#[trigger] cnt@[w]) as int == in_count(es@.take(k as int), w as usize),
        decreases es.len() - k,
    {
        let t = es[k].0;
        proof {
            assert(es@.take(k + 1).drop_last() =~= es@.take(k as int));
            lemma_in_count_nonneg(es@.take(k as int), t);
        }
        let c = cnt[t];
        cnt.set(t, c + 1);
        k += 1;
    }
    proof {
        assert(es@.take(es@.len() as int) =~= es@);
    }
    let ghost mut cg: Seq<int> = c0;
    proof {
        assert forall|w: int| 0 <= w < n implies (#[trigger] cnt@[w]) as int == cg[w] by {}
    }
    // listings with nothing to wait for
    let mut q: Vec<usize> = Vec::new();
    let mut i: usize = 0;
    while i < n
        invariant
            i <= n,
            n == services@.len(),
            sv == str_views(services@),
            ids@ == name_ids(sv),
            forall|a: int| 0 <= a < ids@.len() ==> (#[trigger] ids@[a] as int) < n,
            c0.len() == n,
            cnt@.len() == n,
            forall|w: int| 0 <= w < n ==> (#[trigger] cnt@[w]) as int == c0[w],
            q@ == zero_queue(sv, c0, i as int),
            forall|a: int| 0 <= a < q@.len() ==> (#[trigger] q@[a] as int) < n,
            forall|w: usize|
                (w as int) < n ==> #[trigger] q@.to_multiset().count(w) == if c0[w as int] == 0 {
                    ids@.take(i as int).to_multiset().count(w)
                } else {
                    0
                },
            forall|w: usize| (w as int) >= n ==> #[trigger] q@.to_multiset().count(w) == 0,
        decreases n - i,
    {
        let t = ids[i];
        proof {
            assert(ids@.take(i + 1) =~= ids@.take(i as int).push(t));
            lemma_first_pos(sv, sv[i as int]);
            assert(sv.contains(sv[i as int]));
            assert(t as int == first_pos(sv, sv[i as int]));
            q@.to_multiset_ensures();
            ids@.take(i as int).to_multiset_ensures();
        }
        if cnt[t] == 0 {
            proof {
                assert(q@.push(t).to_multiset() =~= q@.to_multiset().insert(t));
            }
            q.push(t);
        }
        i += 1;
    }
    proof {
        assert(ids@.take(n as int) =~= ids@);
    }
    // start the queued names in turn
    let ghost qfinal = drain(es@, q@, 0, c0, (n + 1) as nat);
    let mut head: usize = 0;
    proof {
        assert forall|w: int| 0 <= w < n implies -1 <= #[trigger] cg[w] <= c0[w] by {
            lemma_in_count_nonneg(es@, w as usize);
        }
        assert forall|w: usize|
            (w as int) < n implies #[trigger] q@.to_multiset().count(w) == queued_times(ids@, c0, cg, w) by {
            lemma_in_count_nonneg(es@, w);
        }
        assert forall|w: usize| q@.to_multiset().count(w) <= ids@.to_multiset().count(w) by {}
        lemma_count_bound(q@, ids@);
    }
    while head < q.len()
        invariant
            n == services@.len(),
            ids@.len() == n,
            forall|a: int| 0 <= a < ids@.len() ==> (#[trigger] ids@[a] as int) < n,
            forall|m: int|
                0 <= m < es@.len() ==> (#[trigger] es@[m]).0 < n && es@[m].1 < n && ids@.contains(
                    es@[m].0,
                ),
            c0 == initial_counts(es@, n as int),
            cg.len() == n,
            cnt@.len() == n,
            forall|w: int| 0 <= w < n ==> (#[trigger] cnt@[w]) as int == cg[w],
            forall|w: int| 0 <= w < n ==> -1 <= #[trigger] cg[w] <= c0[w],
            head <= q@.len() <= n,
            forall|a: int| 0 <= a < q@.len() ==> (#[trigger] q@[a] as int) < n,
            forall|w: usize| (w as int) < n ==> #[trigger] q@.to_multiset().count(w) == queued_times(ids@, c0, cg, w),
            forall|w: usize| (w as int) >= n ==> #[trigger] q@.to_multiset().count(w) == 0,
            drain(es@, q@, head as nat, cg, (n + 1 - head) as nat) == qfinal,
        decreases n - head,
    {
        let u = q[head];
        let ghost q0 = q@;
        let ghost cg0 = cg;
        let ghost r = relax(es@, u, 0, cg0, q0);
        let mut k: usize = 0;
        while k < es.len()
            invariant
                n == services@.len(),
                ids@.len() == n,
                forall|m: int|
                    0 <= m < es@.len() ==> (#[trigger] es@[m]).0 < n && es@[m].1 < n && ids@.contains(
                        es@[m].0,
                    ),
                c0 == initial_counts(es@, n as int),
                k <= es@.len(),
                cg.len() == n,
                cnt@.len() == n,
                forall|w: int| 0 <= w < n ==> (#[trigger] cnt@[w]) as int == cg[w],
                forall|w: int| 0 <= w < n ==> -1 <= #[trigger] cg[w] <= c0[w],
                forall|a: int| 0 <= a < q@.len() ==> (#[trigger] q@[a] as int) < n,
                forall|w: usize|
                    (w as int) < n ==> #[trigger] q@.to_multiset().count(w) == queued_times(ids@, c0, cg, w),
                forall|w: usize| (w as int) >= n ==> #[trigger] q@.to_multiset().count(w) == 0,
                relax(es@, u, k as int, cg, q@) == r,
                head < q0.len() <= q@.len(),
            decreases es.len() - k,
        {
            let (t, d) = es[k];
            if d == u {
                let c = cnt[t];
                let nc: i128 = if c > 0 {
                    c - 1
                } else {
                    -1
                };
                proof {
                    assert(nc as int == spend(cg[t as int]));
                    lemma_in_count_nonneg(es@, t);
                }
                cnt.set(t, nc);
                let ghost cgb = cg;
                proof {
                    cg = cg.update(t as int, nc as int);
                }
                if nc == 0 {
                    proof {
                        q@.to_multiset_ensures();
                        assert(q@.push(t).to_multiset() =~= q@.to_multiset().insert(t));
                        assert(c0[t as int] > 0);
                    }
                    q.push(t);
                    proof {
                        assert forall|w: usize|
                            (w as int) < n implies #[trigger] q@.to_multiset().count(w) == queued_times(
                            ids@,
                            c0,
                            cg,
                            w,
                        ) by {
                            if w != t {
                                assert(cg[w as int] == cgb[w as int]);
                            }
                        }
                    }
                } else {
                    proof {
                        assert forall|w: usize|
                            (w as int) < n implies #[trigger] q@.to_multiset().count(w) == queued_times(
                            ids@,
                            c0,
                            cg,
                            w,
                        ) by {
                            if w != t {
                                assert(cg[w as int] == cgb[w as int]);
                            } else {
                                if c0[w as int] != 0 {
                                    assert(queued_times(ids@, c0, cgb, w) == queued_times(ids@, c0, cg, w));
                                }
                            }
                        }
                    }
                }
            }
            k += 1;
        }
        proof {
            // the new queue holds no name more often than it is listed
            assert forall|w: usize| q@.to_multiset().count(w) <= ids@.to_multiset().count(w) by {
                if (w as int) < n && c0[w as int] != 0 && cg[w as int] <= 0 {
                    lemma_in_count_nonneg(es@, w);
                    lemma_in_count_edge(es@, w);
                    ids@.to_multiset_ensures();
                    let m = choose|m: int| 0 <= m < es@.len() && es@[m].0 == w;
                    assert(ids@.contains(w));
                    assert(ids@.to_multiset().count(w) > 0);
                }
            }
            lemma_count_bound(q@, ids@);
            assert(drain(es@, q0, head as nat, cg0, (n + 1 - head) as nat) == drain(
                es@,
                q@,
                (head + 1) as nat,
                cg,
                (n + 1 - (head + 1)) as nat,
            ));
        }
        head += 1;
    }
    proof {
        assert(qfinal == q@);
    }
    if q.len() < n {
        let ghost want = fill(sv, q@, 0);
        let mut i: usize = 0;
        while i < n
            invariant
                i <= n,
                n == services@.len(),
                sv == str_views(services@),
                ids@ == name_ids(sv),
                forall|a: int| 0 <= a < ids@.len() ==> (#[trigger] ids@[a] as int) < n,
                forall|a: int| 0 <= a < q@.len() ==> (#[trigger] q@[a] as int) < n,
                fill(sv, q@, i as int) == want,
            decreases n - i,
        {
            let t = ids[i];
            if !contains_id(&q, t) {
                q.push(t);
            }
            i += 1;
        }
        proof {
            assert(q@ == want);
        }
    }
    q
}

/// No name is listed twice.
fn all_distinct(services: &[String]) -> (r: bool)
    ensures
        r == str_views(services@).no_duplicates(),
{
    let ghost sv = str_views(services@);
    let mut i: usize = 0;
    while i < services.len()
        invariant
            i <= services@.len(),
            sv == str_views(services@),
            forall|a: int, b: int| 0 <= a < i && 0 <= b < services@.len() && a != b ==> sv[a] != sv[b],
        decreases services.len() - i,
    {
        let mut j: usize = 0;
        while j < services.len()
            invariant
                i < services@.len(),
                j <= services@.len(),
                sv == str_views(services@),
                forall|a: int, b: int| 0 <= a < i && 0 <= b < services@.len() && a != b ==> sv[a] != sv[b],
                forall|b: int| 0 <= b < j && b != i ==> sv[i as int] != sv[b],
            decreases services.len() - j,
        {
            if j != i && services[i] == services[j] {
                proof {
                    assert(sv[i as int] == sv[j as int]);
                }
                return false;
            }
            j += 1;
        }
        i += 1;
    }
    true
}

/// Order in which to start `services`: every service after the services it
/// depends on (`deps_map` gives each service's dependencies), ready services
/// first come first served; services caught in a dependency cycle are
/// appended in their listed order.  A list that names a service more than
/// once is ordered by counting, as `counted_start_ids` says.
pub fn compute_start_order(services: &[String], deps_map: &[(String, Vec<String>)]) -> (r: Vec<
    String,
>)
    ensures
        str_views(r@) == service_start_order(str_views(services@), dep_view(deps_map@)),
        str_views(services@).no_duplicates() ==> is_start_order(
            str_views(services@),
            dep_view(deps_map@),
            str_views(r@),
        ),
{
    if all_distinct(services) {
        let (ix, Ghost(k)) = start_order_indices(services, deps_map);
        let r = names_of(services, &ix);
        proof {
            assert(start_order_at(str_views(services@), dep_view(deps_map@), ix@, k));
        }
        r
    } else {
        let ix = counted_start_ids_exec(services, deps_map);
        names_of(services, &ix)
    }
}

/// Order in which to stop `services`: the start order reversed, so that
/// dependents stop before what they depend on.
pub fn compute_stop_order(services: &[String], deps_map: &[(String, Vec<String>)]) -> (r: Vec<
    String,
>)
    ensures
        str_views(r@) == service_start_order(str_views(services@), dep_view(deps_map@)).reverse(),
        str_views(services@).no_duplicates() ==> is_start_order(
            str_views(services@),
            dep_view(deps_map@),
            str_views(r@).reverse(),
        ),
{
    let start = compute_start_order(services, deps_map);
    let mut r: Vec<String> = Vec::new();
    let mut i: usize = start.len();
    while i > 0
        invariant
            i <= start@.len(),
            str_views(r@) == str_views(start@).skip(i as int).reverse(),
        decreases i,
    {
        i -= 1;
        let s = start[i].clone();
        proof {
            crate::text::lemma_str_views_push(r@, s);
            assert(str_views(start@).skip(i as int).reverse() =~= str_views(start@).skip(
                i + 1,
            ).reverse().push(s@));
        }
        r.push(s);
    }
    proof {
        assert(str_views(start@).skip(0) =~= str_views(start@));
        assert(str_views(r@).reverse() =~= str_views(start@));
    }
    r
}

/// A start order lists every service exactly once.
pub proof fn lemma_start_order_is_permutation(
    sv: Seq<Seq<char>>,
    dm: Seq<(Seq<char>, Seq<Seq<char>>)>,
    r: Seq<Seq<char>>,
)
    requires
        sv.no_duplicates(),
        is_start_order(sv, dm, r),
    ensures
        r.len() == sv.len(),
        r.no_duplicates(),
        forall|x: Seq<char>| r.contains(x) <==> sv.contains(x),
{
    let (ix, k) = choose|ix: Seq<usize>, k: int| start_order_at(sv, dm, ix, k) && r == names_at(
        sv,
        ix,
    );
    assert forall|a: int, b: int|
        0 <= a < r.len() && 0 <= b < r.len() && a != b implies r[a] != r[b] by {
        assert(ix[a] != ix[b]);
    }
    assert forall|x: Seq<char>| sv.contains(x) implies r.contains(x) by {
        let i = choose|i: int| 0 <= i < sv.len() && sv[i] == x;
        let f = |x: usize| x as int;
        let mi = ix.map_values(f);
        assert(injective(f));
        ix.lemma_no_duplicates_injective(f);
        mi.unique_seq_to_set();
        lemma_int_range(0, sv.len() as int);
        assert(mi.to_set().subset_of(set_int_range(0, sv.len() as int))) by {
            assert forall|y: int| mi.to_set().contains(y) implies set_int_range(
                0,
                sv.len() as int,
            ).contains(y) by {
                let a = choose|a: int| 0 <= a < mi.len() && mi[a] == y;
                assert(ix[a] as int == y);
            }
        }
        vstd::set_lib::lemma_subset_equality(mi.to_set(), set_int_range(0, sv.len() as int));
        assert(set_int_range(0, sv.len() as int).contains(i));
        assert(mi.to_set().contains(i));
        let a = choose|a: int| 0 <= a < mi.len() && mi[a] == i;
        assert(r[a] == x);
    }
    assert forall|x: Seq<char>| r.contains(x) implies sv.contains(x) by {
        let a = choose|a: int| 0 <= a < r.len() && r[a] == x;
        assert(sv[ix[a] as int] == x);
    }
}

proof fn lemma_waiting_part_is_group(
    sv: Seq<Seq<char>>,
    dm: Seq<(Seq<char>, Seq<Seq<char>>)>,
    ix: Seq<usize>,
    k: int,
)
    requires
        start_order_at(sv, dm, ix, k),
        k < sv.len(),
    ensures
        has_waiting_group(sv, dm),
{
    let n = sv.len() as int;
    let g = Seq::new((n - k) as nat, |c: int| ix[k + c] as int);
    assert forall|c: int| 0 <= c < g.len() implies #[trigger] waits_within(sv, dm, g, c) by {
        let a = k + c;
        assert(g[c] == ix[a] as int);
        assert(waits_on_rest(sv, dm, ix, k, a));
        let j = choose|j: int|
            #[trigger] depends(sv, dm, ix[a] as int, j) && exists|b: int|
                k <= b < ix.len() && ix[b] as int == j;
        let b = choose|b: int| k <= b < ix.len() && ix[b] as int == j;
        assert(g[b - k] == j);
        assert(g.contains(j));
    }
    assert(g.len() > 0);
}

/// Without a dependency cycle, every service starts after each service it
/// depends on.
pub proof fn lemma_start_order_respects_dependencies(
    sv: Seq<Seq<char>>,
    dm: Seq<(Seq<char>, Seq<Seq<char>>)>,
    r: Seq<Seq<char>>,
    a: int,
    b: int,
)
    requires
        sv.no_duplicates(),
        is_start_order(sv, dm, r),
        !has_waiting_group(sv, dm),
        0 <= a < r.len(),
        0 <= b < r.len(),
        deps_of(dm, r[a]).contains(r[b]),
    ensures
        b < a,
{
    let (ix, k) = choose|ix: Seq<usize>, k: int| start_order_at(sv, dm, ix, k) && r == names_at(
        sv,
        ix,
    );
    if k < sv.len() {
        lemma_waiting_part_is_group(sv, dm, ix, k);
    }
    assert(r[a] == sv[ix[a] as int]);
    assert(r[b] == sv[ix[b] as int]);
    assert(depends(sv, dm, ix[a] as int, ix[b] as int));
    let c = choose|c: int| 0 <= c < a && ix[c] as int == ix[b] as int;
    assert(ix[c] == ix[b]);
}

/// Without a dependency cycle, every service stops before each service it
/// depends on.
pub proof fn lemma_stop_order_respects_dependencies(
    sv: Seq<Seq<char>>,
    dm: Seq<(Seq<char>, Seq<Seq<char>>)>,
    r: Seq<Seq<char>>,
    a: int,
    b: int,
)
    requires
        sv.no_duplicates(),
        is_start_order(sv, dm, r.reverse()),
        !has_waiting_group(sv, dm),
        0 <= a < r.len(),
        0 <= b < r.len(),
        deps_of(dm, r[a]).contains(r[b]),
    ensures
        a < b,
{
    let n = r.len() as int;
    assert(r.reverse()[n - 1 - a] == r[a]);
    assert(r.reverse()[n - 1 - b] == r[b]);
    lemma_start_order_respects_dependencies(sv, dm, r.reverse(), n - 1 - a, n - 1 - b);
}

// ---------------------------------------------------------------------------
// Aggregated status
// ---------------------------------------------------------------------------
/// State of a service or project from the states of its containers: stopped
/// when empty; failed if any failed; else restarting if any restarts; else
/// running when all run, degraded when some run, stopped when none runs.
pub open spec fn aggregate(statuses: Seq<ResourceStatus>) -> ResourceStatus {
    if statuses.len() == 0 {
        ResourceStatus::Stopped
    } else if statuses.contains(ResourceStatus::Failed) {
        ResourceStatus::Failed
    } else if statuses.contains(ResourceStatus::Restarting) {
        ResourceStatus::Restarting
    } else if forall|i: int| 0 <= i < statuses.len() ==> statuses[i] == ResourceStatus::Running {
        ResourceStatus::Running
    } else if statuses.contains(ResourceStatus::Running) {
        ResourceStatus::Degraded
    } else {
        ResourceStatus::Stopped
    }
}

pub fn aggregate_statuses(statuses: &[ResourceStatus]) -> (r: ResourceStatus)
    ensures
        r == aggregate(statuses@),
{
    if statuses.len() == 0 {
        return ResourceStatus::Stopped;
    }
    let mut failed = false;
    let mut restarting = false;
    let mut running: usize = 0;
    let mut i: usize = 0;
    while i < statuses.len()
        invariant
            i <= statuses@.len(),
            running <= i,
            failed == statuses@.take(i as int).contains(ResourceStatus::Failed),
            restarting == statuses@.take(i as int).contains(ResourceStatus::Restarting),
            (running == i) == (forall|j: int| 0 <= j < i ==> statuses@[j] == ResourceStatus::Running),
            (running > 0) == statuses@.take(i as int).contains(ResourceStatus::Running),
        decreases statuses.len() - i,
    {
        let s = statuses[i];
        proof {
            assert(statuses@.take(i + 1) =~= statuses@.take(i as int).push(s));
            if running == i && s != ResourceStatus::Running {
                assert(!(forall|j: int| 0 <= j < i + 1 ==> statuses@[j] == ResourceStatus::Running));
            }
            if running < i {
                let j = choose|j: int| 0 <= j < i && statuses@[j] != ResourceStatus::Running;
                assert(!(forall|j: int| 0 <= j < i + 1 ==> statuses@[j] == ResourceStatus::Running));
            }
        }
        match s {
            ResourceStatus::Failed => {
                failed = true;
            },
            ResourceStatus::Restarting => {
                restarting = true;
            },
            ResourceStatus::Running => {
                running += 1;
            },
            _ => {},
        }
        i += 1;
    }
    proof {
        assert(statuses@.take(statuses@.len() as int) =~= statuses@);
    }
    if failed {
        ResourceStatus::Failed
    } else if restarting {
        ResourceStatus::Restarting
    } else if running == statuses.len() {
        ResourceStatus::Running
    } else if running > 0 {
        ResourceStatus::Degraded
    } else {
        ResourceStatus::Stopped
    }
}


/// Debug text of a list of names: `["a", "b"]`.
pub open spec fn debug_list(names: Seq<Seq<char>>) -> Seq<char>
    decreases names.len(),
{
    if names.len() == 0 {
        "[]"@
    } else {
        debug_items(names) + "]"@
    }
}

/// `[` and the quoted names separated by `, ` (no closing bracket).
pub open spec fn debug_items(names: Seq<Seq<char>>) -> Seq<char>
    decreases names.len(),
{
    if names.len() == 0 {
        "["@
    } else if names.len() == 1 {
        "["@ + crate::text::debug_text(names[0])
    } else {
        debug_items(names.drop_last()) + ", "@ + crate::text::debug_text(names.last())
    }
}

/// Sub-state of a compose service: `depends_on: ` and its dependencies as
/// `Debug` prints the list.
pub fn depends_on_text(deps: &[String]) -> (r: String)
    ensures
        r@ == "depends_on: "@ + debug_list(str_views(deps@)),
{
    let ghost ds = str_views(deps@);
    let mut v = chars_of("depends_on: ");
    let ghost start = "depends_on: "@;
    push_all(&mut v, &chars_of("["));
    let mut i: usize = 0;
    proof {
        assert(v@ =~= start + "["@);
    }
    while i < deps.len()
        invariant
            ds == str_views(deps@),
            i <= deps@.len(),
            i == 0 ==> v@ == start + "["@,
            i > 0 ==> v@ == start + debug_items(ds.take(i as int)),
        decreases deps.len() - i,
    {
        if i > 0 {
            push_all(&mut v, &chars_of(", "));
        }
        let d = crate::text::debug_str(deps[i].as_str());
        push_all(&mut v, &chars_of(d.as_str()));
        proof {
            let t = ds.take(i + 1);
            assert(t.drop_last() =~= ds.take(i as int));
            assert(t.last() == deps@[i as int]@);
            if i > 0 {
                assert(v@ =~= start + debug_items(t));
            } else {
                assert(v@ =~= start + debug_items(t));
            }
        }
        i += 1;
    }
    push_all(&mut v, &chars_of("]"));
    proof {
        assert(ds.take(deps@.len() as int) =~= ds);
        if deps@.len() == 0 {
            reveal_strlit("[");
            reveal_strlit("]");
            reveal_strlit("[]");
        }
        assert(v@ =~= "depends_on: "@ + debug_list(ds));
    }
    string_of(&v)
}

// ---------------------------------------------------------------------------
// Containers of compose projects
// ---------------------------------------------------------------------------
/// A container that belongs to a compose project, as read from its labels.
#[derive(Debug, Clone)]
pub struct ComposeContainerInfo {
    pub container_name: String,
    pub project: String,
    pub service: String,
    pub container_number: Option<u32>,
    pub depends_on: Vec<String>,
    pub is_managed: bool,
    pub status: ResourceStatus,
    pub raw_labels: Vec<(String, String)>,
}

/// Value of the first label named `key`.
pub open spec fn label_of(labels: Seq<(String, String)>, key: Seq<char>) -> Option<Seq<char>>
    decreases labels.len(),
{
    if labels.len() == 0 {
        None
    } else if labels[0].0@ == key {
        Some(labels[0].1@)
    } else {
        label_of(labels.drop_first(), key)
    }
}

pub fn find_label(labels: &[(String, String)], key: &str) -> (r: Option<usize>)
    ensures
        match r {
            Some(k) => k < labels@.len() && label_of(labels@, key@) == Some(labels@[k as int].1@),
            None => label_of(labels@, key@) is None,
        },
{
    let mut i: usize = 0;
    proof {
        assert(labels@.skip(0) =~= labels@);
    }
    while i < labels.len()
        invariant
            i <= labels@.len(),
            label_of(labels@, key@) == label_of(labels@.skip(i as int), key@),
        decreases labels.len() - i,
    {
        proof {
            assert(labels@.skip(i as int)[0] == labels@[i as int]);
            assert(labels@.skip(i as int).drop_first() =~= labels@.skip(i + 1));
        }
        if crate::text::str_eq_lit(labels[i].0.as_str(), key) {
            return Some(i);
        }
        i += 1;
    }
    None
}

/// `s` without its leading run of `c`.
pub open spec fn strip_leading(s: Seq<char>, c: char) -> Seq<char>
    decreases s.len(),
{
    if s.len() > 0 && s[0] == c {
        strip_leading(s.drop_first(), c)
    } else {
        s
    }
}

fn strip_leading_exec(s: &[char], c: char) -> (r: Vec<char>)
    ensures
        r@ == strip_leading(s@, c),
{
    let mut k: usize = 0;
    proof {
        assert(s@.skip(0) =~= s@);
    }
    while k < s.len() && s[k] == c
        invariant
            k <= s@.len(),
            strip_leading(s@, c) == strip_leading(s@.skip(k as int), c),
        decreases s.len() - k,
    {
        proof {
            assert(s@.skip(k as int).drop_first() =~= s@.skip(k + 1));
        }
        k += 1;
    }
    crate::text::slice_of(s, k, s.len())
}

/// Status of a container from its state word (case-insensitive).
pub open spec fn state_status(state: Seq<char>) -> ResourceStatus {
    let l = crate::text::lower_seq(state);
    if l == "running"@ {
        ResourceStatus::Running
    } else if l == "restarting"@ {
        ResourceStatus::Restarting
    } else if l == "exited"@ || l == "dead"@ || l == "created"@ {
        ResourceStatus::Stopped
    } else {
        ResourceStatus::Unknown
    }
}

pub fn container_state_status(state: &[char]) -> (r: ResourceStatus)
    ensures
        r == state_status(state@),
{
    let l = crate::text::lower_chars(state);
    if crate::text::eq_lit(&l, "running") {
        ResourceStatus::Running
    } else if crate::text::eq_lit(&l, "restarting") {
        ResourceStatus::Restarting
    } else if crate::text::eq_lit(&l, "exited") || crate::text::eq_lit(&l, "dead")
        || crate::text::eq_lit(&l, "created") {
        ResourceStatus::Stopped
    } else {
        ResourceStatus::Unknown
    }
}

/// Name shown for a container: its first name without leading `/`, else its id.
pub open spec fn container_name_of(names: Seq<String>, id: Option<Seq<char>>) -> Seq<char> {
    if names.len() > 0 {
        strip_leading(names[0]@, '/')
    } else {
        match id {
            Some(i) => i,
            None => Seq::empty(),
        }
    }
}

/// A label value that names a project or service.
pub open spec fn present(v: Option<Seq<char>>) -> bool {
    v is Some && v->0.len() > 0
}

/// Reads the compose facts of one container from its labels, names, id and
/// state; `None` for a container outside any compose project.
pub fn container_info(
    labels: Vec<(String, String)>,
    names: &[String],
    id: Option<&str>,
    state: Option<&str>,
) -> (r: Option<ComposeContainerInfo>)
    ensures
        r is None <==> !(present(label_of(labels@, "com.docker.compose.project"@)) && present(
            label_of(labels@, "com.docker.compose.service"@),
        )),
        r matches Some(c) ==> {
            &&& c.project@ == label_of(labels@, "com.docker.compose.project"@)->0
            &&& c.service@ == label_of(labels@, "com.docker.compose.service"@)->0
            &&& c.container_name@ == container_name_of(
                names@,
                match id {
                    Some(i) => Some(i@),
                    None => None,
                },
            )
            &&& c.container_number == match label_of(
                labels@,
                "com.docker.compose.container-number"@,
            ) {
                Some(n) => crate::text::parse_u32(n),
                None => None,
            }
            &&& str_views(c.depends_on@) == match label_of(
                labels@,
                "com.docker.compose.depends_on"@,
            ) {
                Some(d) => depends_on_list(d),
                None => Seq::empty(),
            }
            &&& c.is_managed == (label_of(labels@, "mop.managed"@) == Some("true"@))
            &&& c.status == state_status(
                match state {
                    Some(s) => s@,
                    None => Seq::empty(),
                },
            )
            &&& c.raw_labels@ == labels@
        },
{
    let project = match find_label(&labels, "com.docker.compose.project") {
        Some(k) => {
            if labels[k].1.as_str().is_empty() {
                return None;
            }
            labels[k].1.clone()
        },
        None => {
            return None;
        },
    };
    let service = match find_label(&labels, "com.docker.compose.service") {
        Some(k) => {
            if labels[k].1.as_str().is_empty() {
                return None;
            }
            labels[k].1.clone()
        },
        None => {
            return None;
        },
    };
    let container_name = if names.len() > 0 {
        let n = chars_of(names[0].as_str());
        let t = strip_leading_exec(&n, '/');
        crate::text::string_of(&t)
    } else {
        match id {
            Some(i) => i.to_owned(),
            None => String::new(),
        }
    };
    let container_number = match find_label(&labels, "com.docker.compose.container-number") {
        Some(k) => {
            let v = chars_of(labels[k].1.as_str());
            crate::text::parse_u32_exec(&v)
        },
        None => None,
    };
    let depends_on = match find_label(&labels, "com.docker.compose.depends_on") {
        Some(k) => parse_depends_on(labels[k].1.as_str()),
        None => Vec::new(),
    };
    let is_managed = match find_label(&labels, "mop.managed") {
        Some(k) => crate::text::str_eq_lit(labels[k].1.as_str(), "true"),
        None => false,
    };
    let state_chars = match state {
        Some(s) => chars_of(s),
        None => Vec::new(),
    };
    let status = container_state_status(&state_chars);
    proof {
        assert(str_views(Seq::<String>::empty()) =~= Seq::<Seq<char>>::empty());
    }
    Some(
        ComposeContainerInfo {
            container_name,
            project,
            service,
            container_number,
            depends_on,
            is_managed,
            status,
            raw_labels: labels,
        },
    )
}

// ---------------------------------------------------------------------------
// Resource ids
// ---------------------------------------------------------------------------
/// `(project, service)` named by the part of a `compose_service:` id after the
/// prefix: split at its first `:`.
pub open spec fn service_ref(rest: Seq<char>) -> Option<(Seq<char>, Seq<char>)> {
    match crate::text::find(rest, seq![':']) {
        Some(i) => Some((rest.take(i), rest.skip(i + 1))),
        None => None,
    }
}

pub fn split_service_ref(rest: &[char]) -> (r: Option<(Vec<char>, Vec<char>)>)
    ensures
        match r {
            Some((p, s)) => service_ref(rest@) == Some((p@, s@)),
            None => service_ref(rest@) is None,
        },
{
    let len = rest.len();
    let colon = vec![':'];
    proof {
        assert(colon@ == seq![':']);
        crate::text::lemma_find_from(rest@, colon@, 0);
    }
    match crate::text::find_exec(rest, &colon) {
        Some(i) => {
            proof {
                assert(crate::text::occurs_at(rest@, colon@, i as int));
            }
            Some((crate::text::slice_of(rest, 0, i), crate::text::slice_of(rest, i + 1, len)))
        },
        None => None,
    }
}

/// `s` with the prefix `p` removed, if it starts with it.
pub open spec fn strip_prefix(s: Seq<char>, p: Seq<char>) -> Option<Seq<char>> {
    if crate::text::starts_with(s, p) {
        Some(s.skip(p.len() as int))
    } else {
        None
    }
}

pub fn strip_prefix_exec(s: &[char], p: &str) -> (r: Option<Vec<char>>)
    ensures
        match r {
            Some(t) => strip_prefix(s@, p@) == Some(t@),
            None => strip_prefix(s@, p@) is None,
        },
{
    let pc = chars_of(p);
    if crate::text::starts_with_exec(s, &pc) {
        Some(crate::text::slice_of(s, pc.len(), s.len()))
    } else {
        None
    }
}


// ---------------------------------------------------------------------------
// Carrying out an action on a compose service or project
// ---------------------------------------------------------------------------
/// One step of carrying out an action on a compose service or project.
#[derive(Debug, Clone, PartialEq, Eq)]
pub enum ActionStep {
    /// Run the action on this container, then report the container's new state.
    Container(String),
    /// Report the new state of this service.
    ServiceEvent(String),
    /// Report the new state of the project.
    ProjectEvent,
}

/// A step as `(0, container)`, `(1, service)` or `(2, "")`.
pub open spec fn step_view(s: ActionStep) -> (int, Seq<char>) {
    match s {
        ActionStep::Container(n) => (0, n@),
        ActionStep::ServiceEvent(n) => (1, n@),
        ActionStep::ProjectEvent => (2, Seq::empty()),
    }
}

pub open spec fn steps_view(s: Seq<ActionStep>) -> Seq<(int, Seq<char>)> {
    Seq::new(s.len(), |i: int| step_view(s[i]))
}

/// Containers of `cs` that are managed and belong to project `p` (and to
/// service `svc`, when given), in list order.
pub open spec fn managed_in(
    cs: Seq<ComposeContainerInfo>,
    p: Seq<char>,
    svc: Option<Seq<char>>,
) -> Seq<ComposeContainerInfo>
    decreases cs.len(),
{
    if cs.len() == 0 {
        Seq::empty()
    } else {
        let rest = managed_in(cs.drop_last(), p, svc);
        let c = cs.last();
        if c.is_managed && c.project@ == p && (svc is None || c.service@ == svc->0) {
            rest.push(c)
        } else {
            rest
        }
    }
}

/// Some container of `cs` belongs to project `p`.
pub open spec fn has_project(cs: Seq<ComposeContainerInfo>, p: Seq<char>) -> bool {
    exists|i: int| 0 <= i < cs.len() && (#[trigger] cs[i]).project@ == p
}

/// Run the action on each of these containers, in order.
pub open spec fn container_steps(ms: Seq<ComposeContainerInfo>) -> Seq<(int, Seq<char>)> {
    Seq::new(ms.len(), |i: int| (0int, ms[i].container_name@))
}

/// Services of `ms`, each once, in order of first appearance.
pub open spec fn unique_services(ms: Seq<ComposeContainerInfo>) -> Seq<Seq<char>>
    decreases ms.len(),
{
    if ms.len() == 0 {
        Seq::empty()
    } else {
        let u = unique_services(ms.drop_last());
        if u.contains(ms.last().service@) {
            u
        } else {
            u.push(ms.last().service@)
        }
    }
}

/// For each service of `ms`, the dependencies its first container declares.
pub open spec fn service_deps(ms: Seq<ComposeContainerInfo>) -> Seq<(Seq<char>, Seq<Seq<char>>)>
    decreases ms.len(),
{
    if ms.len() == 0 {
        Seq::empty()
    } else {
        let d = service_deps(ms.drop_last());
        if unique_services(ms.drop_last()).contains(ms.last().service@) {
            d
        } else {
            d.push((ms.last().service@, str_views(ms.last().depends_on@)))
        }
    }
}

/// Containers of `ms` that belong to service `svc`, in order.
pub open spec fn of_service(ms: Seq<ComposeContainerInfo>, svc: Seq<char>) -> Seq<ComposeContainerInfo>
    decreases ms.len(),
{
    if ms.len() == 0 {
        Seq::empty()
    } else {
        let rest = of_service(ms.drop_last(), svc);
        if ms.last().service@ == svc {
            rest.push(ms.last())
        } else {
            rest
        }
    }
}

/// For each service of `order` in turn: its containers, then its event.
pub open spec fn project_steps(ms: Seq<ComposeContainerInfo>, order: Seq<Seq<char>>) -> Seq<
    (int, Seq<char>),
>
    decreases order.len(),
{
    if order.len() == 0 {
        Seq::empty()
    } else {
        project_steps(ms, order.drop_last()) + container_steps(of_service(ms, order.last())).push(
            (1int, order.last()),
        )
    }
}

/// An error as `(0, id, "")` (not found), `(1, action, detail)` (not
/// allowed) or `(2, message, "")` (backend failure).
pub open spec fn err_view(e: AppError) -> (int, Seq<char>, Seq<char>) {
    match e {
        AppError::ResourceNotFound(i) => (0, i@, Seq::empty()),
        AppError::ActionNotAllowed(a, d) => (1, a@, d@),
        AppError::Internal(m) => (2, m@, Seq::empty()),
    }
}

/// Why an action on a compose target without managed containers is refused.
pub open spec fn no_managed_detail(id: Seq<char>) -> Seq<char> {
    id + " has no managed containers (mop.managed=true required)"@
}

/// What carrying out `action` on the compose resource `id` does, given the
/// containers found (`docker` says whether a daemon is there): the steps to
/// take, or the error.  A project's services go in start order for `start`
/// and `restart`, in stop order for `stop`.
pub open spec fn compose_plan(
    cs: Seq<ComposeContainerInfo>,
    id: Seq<char>,
    action: Seq<char>,
    docker: bool,
    r: Result<Seq<(int, Seq<char>)>, (int, Seq<char>, Seq<char>)>,
) -> bool {
    if !docker {
        r == Err::<Seq<(int, Seq<char>)>, _>((2int, "Docker daemon is not available"@, Seq::<char>::empty()))
    } else if let Some(rest) = strip_prefix(id, "compose_service:"@) {
        match service_ref(rest) {
            None => r == Err::<Seq<(int, Seq<char>)>, _>((0int, id, Seq::<char>::empty())),
            Some((p, s)) => {
                let ms = managed_in(cs, p, Some(s));
                if ms.len() == 0 {
                    r == Err::<Seq<(int, Seq<char>)>, _>((1int, action, no_managed_detail(id)))
                } else if !is_known_action(action) {
                    r == Err::<Seq<(int, Seq<char>)>, _>((1int, action, ms[0].container_name@))
                } else {
                    r == Ok::<_, (int, Seq<char>, Seq<char>)>(container_steps(ms).push((1int, s)))
                }
            },
        }
    } else if let Some(p) = strip_prefix(id, "compose_project:"@) {
        let ms = managed_in(cs, p, None);
        if !has_project(cs, p) {
            r == Err::<Seq<(int, Seq<char>)>, _>((0int, id, Seq::<char>::empty()))
        } else if ms.len() == 0 {
            r == Err::<Seq<(int, Seq<char>)>, _>((1int, action, no_managed_detail(id)))
        } else if action == "stop"@ {
            r == Ok::<_, (int, Seq<char>, Seq<char>)>(
                project_steps(
                    ms,
                    start_order(unique_services(ms), service_deps(ms)).reverse(),
                ).push((2int, Seq::<char>::empty())),
            )
        } else if action == "start"@ || action == "restart"@ {
            r == Ok::<_, (int, Seq<char>, Seq<char>)>(
                project_steps(ms, start_order(unique_services(ms), service_deps(ms))).push(
                    (2int, Seq::<char>::empty()),
                ),
            )
        } else {
            r == Err::<Seq<(int, Seq<char>)>, _>((1int, action, id))
        }
    } else {
        r == Err::<Seq<(int, Seq<char>)>, _>((0int, id, Seq::<char>::empty()))
    }
}

pub open spec fn result_view(r: Result<Vec<ActionStep>, AppError>) -> Result<
    Seq<(int, Seq<char>)>,
    (int, Seq<char>, Seq<char>),
> {
    match r {
        Ok(s) => Ok(steps_view(s@)),
        Err(e) => Err(err_view(e)),
    }
}


/// The containers `cs[ix[0]], cs[ix[1]], ...`.
pub open spec fn pick(cs: Seq<ComposeContainerInfo>, ix: Seq<usize>) -> Seq<ComposeContainerInfo> {
    Seq::new(ix.len(), |a: int| cs[ix[a] as int])
}

fn select_managed(cs: &[ComposeContainerInfo], p: &String, svc: Option<&String>) -> (ix: Vec<usize>)
    ensures
        forall|a: int| 0 <= a < ix@.len() ==> (#[trigger] ix@[a] as int) < cs@.len(),
        pick(cs@, ix@) == managed_in(
            cs@,
            p@,
            match svc {
                Some(x) => Some(x@),
                None => None,
            },
        ),
{
    let ghost sv = match svc {
        Some(x) => Some(x@),
        None => None::<Seq<char>>,
    };
    let mut ix: Vec<usize> = Vec::new();
    let mut i: usize = 0;
    while i < cs.len()
        invariant
            i <= cs@.len(),
            sv == match svc {
                Some(x) => Some(x@),
                None => None,
            },
            forall|a: int| 0 <= a < ix@.len() ==> (#[trigger] ix@[a] as int) < i,
            pick(cs@, ix@) == managed_in(cs@.take(i as int), p@, sv),
        decreases cs.len() - i,
    {
        proof {
            assert(cs@.take(i + 1).drop_last() =~= cs@.take(i as int));
        }
        let c = &cs[i];
        let hit = c.is_managed && c.project == *p && match svc {
            Some(x) => c.service == *x,
            None => true,
        };
        if hit {
            proof {
                assert(pick(cs@, ix@.push(i)) =~= pick(cs@, ix@).push(cs@[i as int]));
            }
            ix.push(i);
        }
        i += 1;
    }
    proof {
        assert(cs@.take(cs@.len() as int) =~= cs@);
    }
    ix
}

fn has_project_exec(cs: &[ComposeContainerInfo], p: &String) -> (r: bool)
    ensures
        r == has_project(cs@, p@),
{
    let mut i: usize = 0;
    while i < cs.len()
        invariant
            i <= cs@.len(),
            forall|j: int| 0 <= j < i ==> cs@[j].project@ != p@,
        decreases cs.len() - i,
    {
        if cs[i].project == *p {
            return true;
        }
        i += 1;
    }
    false
}

fn clone_strings(v: &Vec<String>) -> (r: Vec<String>)
    ensures
        str_views(r@) == str_views(v@),
{
    let mut r: Vec<String> = Vec::new();
    let mut i: usize = 0;
    while i < v.len()
        invariant
            i <= v@.len(),
            str_views(r@) == str_views(v@).take(i as int),
        decreases v.len() - i,
    {
        let s = v[i].clone();
        proof {
            crate::text::lemma_str_views_push(r@, s);
            assert(str_views(v@).take(i + 1) =~= str_views(v@).take(i as int).push(s@));
        }
        r.push(s);
        i += 1;
    }
    proof {
        assert(str_views(v@).take(v@.len() as int) =~= str_views(v@));
    }
    r
}

/// The services of the picked containers and the dependencies of each.
fn services_and_deps(cs: &[ComposeContainerInfo], ix: &Vec<usize>) -> (r: (
    Vec<String>,
    Vec<(String, Vec<String>)>,
))
    requires
        forall|a: int| 0 <= a < ix@.len() ==> (#[trigger] ix@[a] as int) < cs@.len(),
    ensures
        str_views(r.0@) == unique_services(pick(cs@, ix@)),
        dep_view(r.1@) == service_deps(pick(cs@, ix@)),
{
    let ghost ms = pick(cs@, ix@);
    let mut us: Vec<String> = Vec::new();
    let mut dm: Vec<(String, Vec<String>)> = Vec::new();
    let mut a: usize = 0;
    while a < ix.len()
        invariant
            a <= ix@.len(),
            ms == pick(cs@, ix@),
            forall|b: int| 0 <= b < ix@.len() ==> (#[trigger] ix@[b] as int) < cs@.len(),
            str_views(us@) == unique_services(ms.take(a as int)),
            dep_view(dm@) == service_deps(ms.take(a as int)),
        decreases ix.len() - a,
    {
        proof {
            assert(ms.take(a + 1).drop_last() =~= ms.take(a as int));
            assert(ms.take(a + 1).last() == cs@[ix@[a as int] as int]);
        }
        let c = &cs[ix[a]];
        if !text_in(&us, &c.service) {
            let name = c.service.clone();
            let name2 = c.service.clone();
            let deps = clone_strings(&c.depends_on);
            proof {
                crate::text::lemma_str_views_push(us@, name);
                assert(dep_view(dm@.push((name2, deps))) =~= dep_view(dm@).push(
                    (name2@, str_views(deps@)),
                ));
            }
            us.push(name);
            dm.push((name2, deps));
        }
        a += 1;
    }
    proof {
        assert(ms.take(ix@.len() as int) =~= ms);
    }
    (us, dm)
}

/// Steps for each service of `order` in turn.
fn steps_for_order(cs: &[ComposeContainerInfo], ix: &Vec<usize>, order: &Vec<String>) -> (r: Vec<
    ActionStep,
>)
    requires
        forall|a: int| 0 <= a < ix@.len() ==> (#[trigger] ix@[a] as int) < cs@.len(),
    ensures
        steps_view(r@) == project_steps(pick(cs@, ix@), str_views(order@)),
{
    let ghost ms = pick(cs@, ix@);
    let mut r: Vec<ActionStep> = Vec::new();
    let mut o: usize = 0;
    while o < order.len()
        invariant
            o <= order@.len(),
            ms == pick(cs@, ix@),
            forall|b: int| 0 <= b < ix@.len() ==> (#[trigger] ix@[b] as int) < cs@.len(),
            steps_view(r@) == project_steps(ms, str_views(order@).take(o as int)),
        decreases order.len() - o,
    {
        let svc = &order[o];
        let ghost before = steps_view(r@);
        let mut a: usize = 0;
        while a < ix.len()
            invariant
                a <= ix@.len(),
                o < order@.len(),
                svc == &order@[o as int],
                ms == pick(cs@, ix@),
                forall|b: int| 0 <= b < ix@.len() ==> (#[trigger] ix@[b] as int) < cs@.len(),
                steps_view(r@) == before + container_steps(of_service(ms.take(a as int), svc@)),
            decreases ix.len() - a,
        {
            proof {
                assert(ms.take(a + 1).drop_last() =~= ms.take(a as int));
                assert(ms.take(a + 1).last() == cs@[ix@[a as int] as int]);
            }
            let c = &cs[ix[a]];
            if c.service == *svc {
                let name = c.container_name.clone();
                proof {
                    assert(steps_view(r@.push(ActionStep::Container(name))) =~= steps_view(r@).push(
                        (0int, name@),
                    ));
                    assert(container_steps(of_service(ms.take(a + 1), svc@)) =~= container_steps(
                        of_service(ms.take(a as int), svc@),
                    ).push((0int, name@)));
                }
                r.push(ActionStep::Container(name));
            } else {
                proof {
                    assert(of_service(ms.take(a + 1), svc@) == of_service(ms.take(a as int), svc@));
                }
            }
            a += 1;
        }
        let ev = svc.clone();
        proof {
            assert(ms.take(ix@.len() as int) =~= ms);
            assert(steps_view(r@.push(ActionStep::ServiceEvent(ev))) =~= steps_view(r@).push(
                (1int, ev@),
            ));
            assert(str_views(order@).take(o + 1).drop_last() =~= str_views(order@).take(o as int));
            assert(str_views(order@).take(o + 1).last() == svc@);
        }
        r.push(ActionStep::ServiceEvent(ev));
        o += 1;
    }
    proof {
        assert(str_views(order@).take(order@.len() as int) =~= str_views(order@));
    }
    r
}

fn not_allowed(action: &str, detail: String) -> (e: AppError)
    ensures
        err_view(e) == (1int, action@, detail@),
{
    AppError::ActionNotAllowed(action.to_owned(), detail)
}

/// Plans `action` on the compose service or project `id`, given the
/// containers found: the containers to act on and the events to report, in
/// order.  Only containers labelled `mop.managed=true` are ever acted on; a
/// target without any is refused.
pub fn plan_compose_action(
    containers: &[ComposeContainerInfo],
    id: &str,
    action: &str,
    docker_available: bool,
) -> (r: Result<Vec<ActionStep>, AppError>)
    ensures
        compose_plan(containers@, id@, action@, docker_available, result_view(r)),
{
    if !docker_available {
        return Err(AppError::Internal("Docker daemon is not available".to_owned()));
    }
    let idc = chars_of(id);
    if let Some(rest) = strip_prefix_exec(&idc, "compose_service:") {
        let (pc, sc) = match split_service_ref(&rest) {
            Some(ps) => ps,
            None => {
                return Err(AppError::ResourceNotFound(id.to_owned()));
            },
        };
        let p = crate::text::string_of(&pc);
        let sname = crate::text::string_of(&sc);
        let ix = select_managed(containers, &p, Some(&sname));
        if ix.len() == 0 {
            let mut detail = chars_of(id);
            crate::text::push_all(&mut detail, &chars_of(" has no managed containers (mop.managed=true required)"));
            return Err(not_allowed(action, crate::text::string_of(&detail)));
        }
        let known = crate::text::str_eq_lit(action, "start") || crate::text::str_eq_lit(action, "stop")
            || crate::text::str_eq_lit(action, "restart");
        if !known {
            return Err(not_allowed(action, containers[ix[0]].container_name.clone()));
        }
        let ghost ms = pick(containers@, ix@);
        let mut steps: Vec<ActionStep> = Vec::new();
        let mut a: usize = 0;
        while a < ix.len()
            invariant
                a <= ix@.len(),
                ms == pick(containers@, ix@),
                forall|b: int| 0 <= b < ix@.len() ==> (#[trigger] ix@[b] as int) < containers@.len(),
                steps_view(steps@) == container_steps(ms).take(a as int),
            decreases ix.len() - a,
        {
            let name = containers[ix[a]].container_name.clone();
            proof {
                assert(steps_view(steps@.push(ActionStep::Container(name))) =~= steps_view(
                    steps@,
                ).push((0int, name@)));
                assert(container_steps(ms).take(a + 1) =~= container_steps(ms).take(a as int).push(
                    (0int, name@),
                ));
            }
            steps.push(ActionStep::Container(name));
            a += 1;
        }
        proof {
            assert(container_steps(ms).take(ix@.len() as int) =~= container_steps(ms));
            assert(steps_view(steps@.push(ActionStep::ServiceEvent(sname))) =~= steps_view(
                steps@,
            ).push((1int, sname@)));
        }
        steps.push(ActionStep::ServiceEvent(sname));
        return Ok(steps);
    }
    if let Some(pc) = strip_prefix_exec(&idc, "compose_project:") {
        let p = crate::text::string_of(&pc);
        if !has_project_exec(containers, &p) {
            return Err(AppError::ResourceNotFound(id.to_owned()));
        }
        let ix = select_managed(containers, &p, None);
        if ix.len() == 0 {
            let mut detail = chars_of(id);
            crate::text::push_all(&mut detail, &chars_of(" has no managed containers (mop.managed=true required)"));
            return Err(not_allowed(action, crate::text::string_of(&detail)));
        }
        let (us, dm) = services_and_deps(containers, &ix);
        proof {
            // the services of a project are distinct by construction
            lemma_unique_services_distinct(pick(containers@, ix@));
        }
        let order = if crate::text::str_eq_lit(action, "stop") {
            compute_stop_order(&us, &dm)
        } else if crate::text::str_eq_lit(action, "start") || crate::text::str_eq_lit(action, "restart") {
            compute_start_order(&us, &dm)
        } else {
            return Err(not_allowed(action, id.to_owned()));
        };
        let mut steps = steps_for_order(containers, &ix, &order);
        proof {
            assert(steps_view(steps@.push(ActionStep::ProjectEvent)) =~= steps_view(steps@).push(
                (2int, Seq::<char>::empty()),
            ));
        }
        steps.push(ActionStep::ProjectEvent);
        return Ok(steps);
    }
    Err(AppError::ResourceNotFound(id.to_owned()))
}

proof fn lemma_unique_services_distinct(ms: Seq<ComposeContainerInfo>)
    ensures
        unique_services(ms).no_duplicates(),
    decreases ms.len(),
{
    if ms.len() > 0 {
        lemma_unique_services_distinct(ms.drop_last());
        let u = unique_services(ms.drop_last());
        if !u.contains(ms.last().service@) {
            assert forall|a: int, b: int|
                0 <= a < u.push(ms.last().service@).len() && 0 <= b < u.push(
                    ms.last().service@,
                ).len() && a != b implies u.push(ms.last().service@)[a] != u.push(
                ms.last().service@,
            )[b] by {
                if a < u.len() && b == u.len() {
                    assert(u.contains(u[a]));
                }
                if b < u.len() && a == u.len() {
                    assert(u.contains(u[b]));
                }
            }
        }
    }
}


proof fn lemma_managed_in_members(cs: Seq<ComposeContainerInfo>, p: Seq<char>, svc: Option<Seq<char>>)
    ensures
        forall|i: int|
            0 <= i < managed_in(cs, p, svc).len() ==> {
                let c = #[trigger] managed_in(cs, p, svc)[i];
                &&& c.is_managed
                &&& c.project@ == p
                &&& cs.contains(c)
            },
    decreases cs.len(),
{
    if cs.len() > 0 {
        lemma_managed_in_members(cs.drop_last(), p, svc);
        let rest = managed_in(cs.drop_last(), p, svc);
        assert forall|i: int| 0 <= i < managed_in(cs, p, svc).len() implies {
            let c = #[trigger] managed_in(cs, p, svc)[i];
            &&& c.is_managed
            &&& c.project@ == p
            &&& cs.contains(c)
        } by {
            if i < rest.len() {
                let c = rest[i];
                let j = choose|j: int| 0 <= j < cs.drop_last().len() && cs.drop_last()[j] == c;
                assert(cs[j] == c);
            } else {
                assert(cs[cs.len() - 1] == cs.last());
            }
        }
    }
}

proof fn lemma_of_service_members(ms: Seq<ComposeContainerInfo>, svc: Seq<char>)
    ensures
        forall|i: int| 0 <= i < of_service(ms, svc).len() ==> ms.contains(#[trigger] of_service(ms, svc)[i]),
    decreases ms.len(),
{
    if ms.len() > 0 {
        lemma_of_service_members(ms.drop_last(), svc);
        let rest = of_service(ms.drop_last(), svc);
        assert forall|i: int| 0 <= i < of_service(ms, svc).len() implies ms.contains(
            #[trigger] of_service(ms, svc)[i],
        ) by {
            if i < rest.len() {
                let j = choose|j: int| 0 <= j < ms.drop_last().len() && ms.drop_last()[j] == rest[i];
                assert(ms[j] == rest[i]);
            } else {
                assert(ms[ms.len() - 1] == ms.last());
            }
        }
    }
}

proof fn lemma_project_steps_members(ms: Seq<ComposeContainerInfo>, order: Seq<Seq<char>>)
    ensures
        forall|i: int|
            0 <= i < project_steps(ms, order).len() && (#[trigger] project_steps(ms, order)[i]).0
                == 0 ==> exists|c: ComposeContainerInfo|
                ms.contains(c) && c.container_name@ == project_steps(ms, order)[i].1,
    decreases order.len(),
{
    if order.len() > 0 {
        lemma_project_steps_members(ms, order.drop_last());
        lemma_of_service_members(ms, order.last());
        let front = project_steps(ms, order.drop_last());
        let os = of_service(ms, order.last());
        let tail = container_steps(os).push((1int, order.last()));
        assert forall|i: int|
            0 <= i < project_steps(ms, order).len() && (#[trigger] project_steps(
                ms,
                order,
            )[i]).0 == 0 implies exists|c: ComposeContainerInfo|
            ms.contains(c) && c.container_name@ == project_steps(ms, order)[i].1 by {
            if i < front.len() {
                assert(project_steps(ms, order)[i] == front[i]);
            } else {
                let t = i - front.len();
                assert(project_steps(ms, order)[i] == tail[t]);
                if t < os.len() {
                    assert(ms.contains(os[t]));
                }
            }
        }
    }
}

/// Carrying out an action on a compose service or project only ever acts on
/// containers that are labelled managed.
pub proof fn lemma_plan_acts_on_managed_only(
    cs: Seq<ComposeContainerInfo>,
    id: Seq<char>,
    action: Seq<char>,
    docker: bool,
    steps: Seq<(int, Seq<char>)>,
    i: int,
)
    requires
        compose_plan(cs, id, action, docker, Ok(steps)),
        0 <= i < steps.len(),
        steps[i].0 == 0,
    ensures
        exists|c: ComposeContainerInfo|
            cs.contains(c) && c.is_managed && c.container_name@ == steps[i].1,
{
    if let Some(rest) = strip_prefix(id, "compose_service:"@) {
        let (p, s) = service_ref(rest)->0;
        let ms = managed_in(cs, p, Some(s));
        lemma_managed_in_members(cs, p, Some(s));
        assert(steps == container_steps(ms).push((1int, s)));
        assert(steps[i] == container_steps(ms)[i]);
        assert(ms[i].is_managed && cs.contains(ms[i]));
    } else {
        let p = strip_prefix(id, "compose_project:"@)->0;
        let ms = managed_in(cs, p, None);
        lemma_managed_in_members(cs, p, None);
        let order = if action == "stop"@ {
            start_order(unique_services(ms), service_deps(ms)).reverse()
        } else {
            start_order(unique_services(ms), service_deps(ms))
        };
        lemma_project_steps_members(ms, order);
        assert(steps[i] == project_steps(ms, order)[i]);
        let c = choose|c: ComposeContainerInfo|
            ms.contains(c) && c.container_name@ == project_steps(ms, order)[i].1;
        let j = choose|j: int| 0 <= j < ms.len() && ms[j] == c;
        assert(ms[j].is_managed);
    }
}

/// An action on a compose service or project without managed containers is
/// refused as not allowed, saying so.
pub proof fn lemma_plan_refuses_unmanaged(
    cs: Seq<ComposeContainerInfo>,
    id: Seq<char>,
    action: Seq<char>,
    p: Seq<char>,
    svc: Option<Seq<char>>,
    r: Result<Seq<(int, Seq<char>)>, (int, Seq<char>, Seq<char>)>,
)
    requires
        compose_plan(cs, id, action, true, r),
        match svc {
            Some(s) => strip_prefix(id, "compose_service:"@) matches Some(rest) && service_ref(rest)
                == Some((p, s)),
            None => strip_prefix(id, "compose_project:"@) == Some(p) && has_project(cs, p),
        },
        managed_in(cs, p, svc).len() == 0,
    ensures
        r == Err::<Seq<(int, Seq<char>)>, _>((1int, action, no_managed_detail(id))),
{
    if svc is None {
        if strip_prefix(id, "compose_service:"@) is Some {
            reveal_strlit("compose_service:");
            reveal_strlit("compose_project:");
            let a = "compose_service:"@;
            let b = "compose_project:"@;
            assert(id[8] == a[8] && id[8] == b[8]);
        }
    }
}

// ---------------------------------------------------------------------------
// Projects and services of the compose containers
// ---------------------------------------------------------------------------
/// The values of `s`, each once, in order of first appearance.
pub open spec fn distinct_in_order<A>(s: Seq<A>) -> Seq<A>
    decreases s.len(),
{
    if s.len() == 0 {
        Seq::empty()
    } else {
        let r = distinct_in_order(s.drop_last());
        if r.contains(s.last()) {
            r
        } else {
            r.push(s.last())
        }
    }
}

/// The positions in `s` that hold `k`, in increasing order.
pub open spec fn positions_of<A>(s: Seq<A>, k: A) -> Seq<usize>
    decreases s.len(),
{
    if s.len() == 0 {
        Seq::empty()
    } else {
        let r = positions_of(s.drop_last(), k);
        if s.last() == k {
            r.push((s.len() - 1) as usize)
        } else {
            r
        }
    }
}

/// The project of each container.
pub open spec fn project_keys(cs: Seq<ComposeContainerInfo>) -> Seq<Seq<char>> {
    Seq::new(cs.len(), |i: int| cs[i].project@)
}

/// The project and service of each container.
pub open spec fn service_keys(cs: Seq<ComposeContainerInfo>) -> Seq<(Seq<char>, Seq<char>)> {
    Seq::new(cs.len(), |i: int| (cs[i].project@, cs[i].service@))
}

/// How many of the containers `cs[ix[0]], cs[ix[1]], ...` are managed.
pub open spec fn managed_among(cs: Seq<ComposeContainerInfo>, ix: Seq<usize>) -> nat
    decreases ix.len(),
{
    if ix.len() == 0 {
        0
    } else {
        managed_among(cs, ix.drop_last()) + if cs[ix.last() as int].is_managed {
            1nat
        } else {
            0nat
        }
    }
}

/// A compose project, or one service of it, with the positions of its
/// containers in the list they were found in and how many are managed.
#[derive(Debug, Clone)]
pub struct ComposeGroup {
    pub project: String,
    pub service: Option<String>,
    pub members: Vec<usize>,
    pub managed_count: usize,
}

/// `g` is the project `p` of the containers `cs`.
pub open spec fn is_project_group(cs: Seq<ComposeContainerInfo>, g: ComposeGroup, p: Seq<char>) -> bool {
    &&& g.project@ == p
    &&& g.service is None
    &&& g.members@ == positions_of(project_keys(cs), p)
    &&& g.managed_count == managed_among(cs, g.members@)
}

/// `g` is the service `k.1` of project `k.0` of the containers `cs`.
pub open spec fn is_service_group(
    cs: Seq<ComposeContainerInfo>,
    g: ComposeGroup,
    k: (Seq<char>, Seq<char>),
) -> bool {
    &&& g.project@ == k.0
    &&& g.service matches Some(sv) && sv@ == k.1
    &&& g.members@ == positions_of(service_keys(cs), k)
    &&& g.managed_count == managed_among(cs, g.members@)
}

proof fn lemma_positions_bound<A>(s: Seq<A>, k: A)
    requires
        s.len() <= usize::MAX,
    ensures
        forall|a: int| 0 <= a < positions_of(s, k).len() ==> (#[trigger] positions_of(s, k)[a] as int) < s.len(),
        positions_of(s, k).len() <= s.len(),
    decreases s.len(),
{
    if s.len() > 0 {
        lemma_positions_bound(s.drop_last(), k);
        let r = positions_of(s.drop_last(), k);
        assert forall|a: int| 0 <= a < positions_of(s, k).len() implies (#[trigger] positions_of(
            s,
            k,
        )[a] as int) < s.len() by {
            if a < r.len() {
                assert(positions_of(s, k)[a] == r[a]);
            }
        }
    }
}

/// Managed containers among `cs[ix[0]], cs[ix[1]], ...`.
pub(crate) fn count_managed(cs: &[ComposeContainerInfo], ix: &Vec<usize>) -> (r: usize)
    requires
        forall|a: int| 0 <= a < ix@.len() ==> (#[trigger] ix@[a] as int) < cs@.len(),
    ensures
        r == managed_among(cs@, ix@),
{
    let mut n: usize = 0;
    let mut a: usize = 0;
    while a < ix.len()
        invariant
            a <= ix@.len(),
            forall|b: int| 0 <= b < ix@.len() ==> (#[trigger] ix@[b] as int) < cs@.len(),
            n == managed_among(cs@, ix@.take(a as int)),
            n <= a,
        decreases ix.len() - a,
    {
        proof {
            assert(ix@.take(a + 1).drop_last() =~= ix@.take(a as int));
        }
        if cs[ix[a]].is_managed {
            n += 1;
        }
        a += 1;
    }
    proof {
        assert(ix@.take(ix@.len() as int) =~= ix@);
    }
    n
}

/// Positions of the containers of project `p`.
fn project_members(cs: &[ComposeContainerInfo], p: &String) -> (r: Vec<usize>)
    ensures
        r@ == positions_of(project_keys(cs@), p@),
{
    let ghost ks = project_keys(cs@);
    let mut r: Vec<usize> = Vec::new();
    let mut i: usize = 0;
    while i < cs.len()
        invariant
            i <= cs@.len(),
            ks == project_keys(cs@),
            r@ == positions_of(ks.take(i as int), p@),
        decreases cs.len() - i,
    {
        proof {
            assert(ks.take(i + 1).drop_last() =~= ks.take(i as int));
        }
        if cs[i].project == *p {
            r.push(i);
        }
        i += 1;
    }
    proof {
        assert(ks.take(cs@.len() as int) =~= ks);
    }
    r
}

/// Positions of the containers of service `s` of project `p`.
fn service_members(cs: &[ComposeContainerInfo], p: &String, s: &String) -> (r: Vec<usize>)
    ensures
        r@ == positions_of(service_keys(cs@), (p@, s@)),
{
    let ghost ks = service_keys(cs@);
    let mut r: Vec<usize> = Vec::new();
    let mut i: usize = 0;
    while i < cs.len()
        invariant
            i <= cs@.len(),
            ks == service_keys(cs@),
            r@ == positions_of(ks.take(i as int), (p@, s@)),
        decreases cs.len() - i,
    {
        proof {
            assert(ks.take(i + 1).drop_last() =~= ks.take(i as int));
        }
        if cs[i].project == *p && cs[i].service == *s {
            r.push(i);
        }
        i += 1;
    }
    proof {
        assert(ks.take(cs@.len() as int) =~= ks);
    }
    r
}

/// Groups the compose containers `cs` by project and by service: the
/// projects in order of first appearance, then the services (project and
/// service name) in order of first appearance, each with the positions of
/// its containers and how many of them are managed.
pub fn compose_groups(cs: &[ComposeContainerInfo]) -> (r: (Vec<ComposeGroup>, Vec<ComposeGroup>))
    ensures
        r.0@.len() == distinct_in_order(project_keys(cs@)).len(),
        forall|g: int|
            0 <= g < r.0@.len() ==> is_project_group(
                cs@,
                #[trigger] r.0@[g],
                distinct_in_order(project_keys(cs@))[g],
            ),
        r.1@.len() == distinct_in_order(service_keys(cs@)).len(),
        forall|g: int|
            0 <= g < r.1@.len() ==> is_service_group(
                cs@,
                #[trigger] r.1@[g],
                distinct_in_order(service_keys(cs@))[g],
            ),
{
    let ghost pk = project_keys(cs@);
    let ghost sk = service_keys(cs@);
    let mut projects: Vec<ComposeGroup> = Vec::new();
    let mut services: Vec<ComposeGroup> = Vec::new();
    let mut i: usize = 0;
    while i < cs.len()
        invariant
            i <= cs@.len(),
            pk == project_keys(cs@),
            sk == service_keys(cs@),
            projects@.len() == distinct_in_order(pk.take(i as int)).len(),
            forall|g: int|
                0 <= g < projects@.len() ==> is_project_group(
                    cs@,
                    #[trigger] projects@[g],
                    distinct_in_order(pk.take(i as int))[g],
                ),
            services@.len() == distinct_in_order(sk.take(i as int)).len(),
            forall|g: int|
                0 <= g < services@.len() ==> is_service_group(
                    cs@,
                    #[trigger] services@[g],
                    distinct_in_order(sk.take(i as int))[g],
                ),
        decreases cs.len() - i,
    {
        let ghost dp = distinct_in_order(pk.take(i as int));
        let ghost ds = distinct_in_order(sk.take(i as int));
        proof {
            assert(pk.take(i + 1).drop_last() =~= pk.take(i as int));
            assert(sk.take(i + 1).drop_last() =~= sk.take(i as int));
            assert(pk.take(i + 1).last() == cs@[i as int].project@);
            assert(sk.take(i + 1).last() == (cs@[i as int].project@, cs@[i as int].service@));
        }
        let c = &cs[i];
        // a project seen for the first time
        let mut seen = false;
        let mut g: usize = 0;
        while g < projects.len()
            invariant
                g <= projects@.len(),
                projects@.len() == dp.len(),
                forall|h: int| 0 <= h < projects@.len() ==> (#[trigger] projects@[h]).project@ == dp[h],
                seen <==> exists|h: int| 0 <= h < g && dp[h] == c.project@,
            decreases projects.len() - g,
        {
            if projects[g].project == c.project {
                seen = true;
            }
            g += 1;
        }
        proof {
            if seen {
                let h = choose|h: int| 0 <= h < g && dp[h] == c.project@;
                assert(dp.contains(c.project@));
            } else {
                assert(!dp.contains(c.project@));
            }
        }
        if !seen {
            let members = project_members(cs, &c.project);
            proof {
                lemma_positions_bound(project_keys(cs@), c.project@);
            }
            let managed_count = count_managed(cs, &members);
            let grp = ComposeGroup { project: c.project.clone(), service: None, members, managed_count };
            projects.push(grp);
        }
        proof {
            assert forall|h: int| 0 <= h < projects@.len() implies is_project_group(
                cs@,
                #[trigger] projects@[h],
                distinct_in_order(pk.take(i + 1))[h],
            ) by {
                if h < dp.len() {
                    assert(distinct_in_order(pk.take(i + 1))[h] == dp[h]);
                }
            }
        }
        // a service seen for the first time
        let mut seen = false;
        let mut g: usize = 0;
        while g < services.len()
            invariant
                g <= services@.len(),
                services@.len() == ds.len(),
                forall|h: int|
                    0 <= h < services@.len() ==> is_service_group(cs@, #[trigger] services@[h], ds[h]),
                seen <==> exists|h: int| 0 <= h < g && ds[h] == (c.project@, c.service@),
            decreases services.len() - g,
        {
            let same = match &services[g].service {
                Some(sv) => services[g].project == c.project && *sv == c.service,
                None => false,
            };
            proof {
                assert(is_service_group(cs@, services@[g as int], ds[g as int]));
            }
            if same {
                seen = true;
            }
            g += 1;
        }
        proof {
            if seen {
                let h = choose|h: int| 0 <= h < g && ds[h] == (c.project@, c.service@);
                assert(ds.contains((c.project@, c.service@)));
            } else {
                assert(!ds.contains((c.project@, c.service@)));
            }
        }
        if !seen {
            let members = service_members(cs, &c.project, &c.service);
            proof {
                lemma_positions_bound(service_keys(cs@), (c.project@, c.service@));
            }
            let managed_count = count_managed(cs, &members);
            let grp = ComposeGroup {
                project: c.project.clone(),
                service: Some(c.service.clone()),
                members,
                managed_count,
            };
            services.push(grp);
        }
        proof {
            assert forall|h: int| 0 <= h < services@.len() implies is_service_group(
                cs@,
                #[trigger] services@[h],
                distinct_in_order(sk.take(i + 1))[h],
            ) by {
                if h < ds.len() {
                    assert(distinct_in_order(sk.take(i + 1))[h] == ds[h]);
                }
            }
        }
        i += 1;
    }
    proof {
        assert(pk.take(cs@.len() as int) =~= pk);
        assert(sk.take(cs@.len() as int) =~= sk);
    }
    (projects, services)
}

} // verus!
