use vstd::prelude::*;
use crate::patterns::texts;
use rand::seq::SliceRandom;

verus! {

/// The server that a candidate list puts first: this server if it is a
/// candidate, else the alias's origin if that is one.
pub open spec fn pinned_server(
    candidates: Set<Seq<char>>,
    own: Seq<char>,
    origin: Option<Seq<char>>,
) -> Option<Seq<char>> {
    if candidates.contains(own) {
        Some(own)
    } else if origin is Some && candidates.contains(origin->0) {
        origin
    } else {
        None
    }
}

/// The text of an optional server name.
pub open spec fn opt_text(o: Option<&String>) -> Option<Seq<char>> {
    match o {
        Some(s) => Some(s@),
        None => None,
    }
}

/// A ranked candidate list: each of `candidates` once, in some order, with
/// the pinned server (if any) first.
pub open spec fn is_ranking_of(
    r: Seq<Seq<char>>,
    candidates: Seq<Seq<char>>,
    own: Seq<char>,
    origin: Option<Seq<char>>,
) -> bool {
    &&& r.no_duplicates()
    &&& r.to_set() == candidates.to_set()
    &&& pinned_server(candidates.to_set(), own, origin) matches Some(p) ==> r.len() > 0 && r[0] == p
}

/// Relies on rand's SliceRandom::shuffle with rand::thread_rng: the slice
/// is permuted in place (by swaps), its elements kept.
#[verifier::external_body]
fn shuffle(v: &mut Vec<usize>)
    ensures
        final(v)@.to_multiset() == old(v)@.to_multiset(),
{
    v.shuffle(&mut rand::thread_rng());
}

fn position_of(v: &Vec<String>, name: &String) -> (r: Option<usize>)
    ensures
        match r {
            Some(i) => i < v@.len() && v@[i as int]@ == name@,
            None => !texts(v@).contains(name@),
        },
{
    let mut i: usize = 0;
    while i < v.len()
        invariant
            i <= v.len(),
            forall|j: int| 0 <= j < i ==> v@[j]@ != name@,
        decreases v.len() - i,
    {
        if v[i] == *name {
            return Some(i);
        }
        i = i + 1;
    }
    None
}

/// Each name of `servers` once, in the order of first occurrence.
fn dedup(servers: Vec<String>) -> (r: Vec<String>)
    ensures
        texts(r@).no_duplicates(),
        texts(r@).to_set() == texts(servers@).to_set(),
{
    let mut out: Vec<String> = Vec::new();
    let mut i: usize = 0;
    while i < servers.len()
        invariant
            i <= servers.len(),
            texts(out@).no_duplicates(),
            texts(out@).to_set() == texts(servers@.subrange(0, i as int)).to_set(),
        decreases servers.len() - i,
    {
        let ghost before = out@;
        if position_of(&out, &servers[i]).is_none() {
            out.push(servers[i].clone());
            assert(texts(out@) =~= texts(before).push(servers@[i as int]@));
        }
        proof {
            let pre = servers@.subrange(0, i as int);
            let post = servers@.subrange(0, i + 1);
            assert(texts(post) =~= texts(pre).push(servers@[i as int]@));
            texts(pre).lemma_push_to_set_commute(servers@[i as int]@);
            if texts(out@) != texts(before) {
                texts(before).lemma_push_to_set_commute(servers@[i as int]@);
            } else {
                assert(texts(before).to_set().contains(servers@[i as int]@)) by {
                    let k = choose|k: int| 0 <= k < before.len() && before[k]@ == servers@[i as int]@;
                    assert(texts(before)[k] == servers@[i as int]@);
                }
                assert(texts(post).to_set() =~= texts(before).to_set());
            }
        }
        i = i + 1;
    }
    assert(servers@.subrange(0, servers.len() as int) =~= servers@);
    out
}

/// The list `v` in a uniformly random order.
fn shuffled(v: Vec<String>) -> (r: Vec<String>)
    requires
        texts(v@).no_duplicates(),
    ensures
        texts(r@).no_duplicates(),
        texts(r@).to_set() == texts(v@).to_set(),
{
    let n = v.len();
    let mut order: Vec<usize> = Vec::new();
    let mut k: usize = 0;
    while k < n
        invariant
            k <= n,
            order@.len() == k,
            forall|j: int| 0 <= j < k ==> order@[j] == j,
        decreases n - k,
    {
        order.push(k);
        k = k + 1;
    }
    let ghost start = order@;
    proof {
        assert(start.no_duplicates());
        start.lemma_multiset_has_no_duplicates();
    }
    shuffle(&mut order);
    proof {
        broadcast use vstd::seq_lib::group_to_multiset_ensures;
        assert(order@.len() == start.len()) by {
            assert(order@.to_multiset().len() == start.to_multiset().len());
        }
        order@.lemma_multiset_has_no_duplicates_conv();
        assert forall|k: usize| k < n implies #[trigger] order@.contains(k) by {
            assert(start[k as int] == k);
            assert(start.contains(k));
            assert(start.to_multiset().count(k) > 0);
            assert(order@.to_multiset().count(k) > 0);
        }
        assert forall|j: int| 0 <= j < n implies #[trigger] order@[j] < n by {
            assert(order@.contains(order@[j]));
            assert(order@.to_multiset().count(order@[j]) > 0);
            assert(start.to_multiset().count(order@[j]) > 0);
            assert(start.contains(order@[j]));
        }
    }
    let mut out: Vec<String> = Vec::new();
    let mut i: usize = 0;
    while i < n
        invariant
            i <= n,
            n == v@.len(),
            order@.len() == n,
            order@.no_duplicates(),
            forall|j: int| 0 <= j < n ==> #[trigger] order@[j] < n,
            out@.len() == i,
            forall|j: int| 0 <= j < i ==> #[trigger] out@[j]@ == v@[order@[j] as int]@,
        decreases n - i,
    {
        out.push(v[order[i]].clone());
        i = i + 1;
    }
    proof {
        assert forall|a: int, b: int| 0 <= a < n && 0 <= b < n && a != b implies texts(out@)[a] != texts(out@)[b] by {
            assert(order@[a] != order@[b]);
            assert(texts(out@)[a] == texts(v@)[order@[a] as int]);
            assert(texts(out@)[b] == texts(v@)[order@[b] as int]);
        }
        assert forall|x: Seq<char>| texts(out@).to_set().contains(x) <==> texts(v@).to_set().contains(x) by {
            if texts(out@).to_set().contains(x) {
                let a = choose|a: int| 0 <= a < n && texts(out@)[a] == x;
                assert(texts(v@)[order@[a] as int] == x);
            }
            if texts(v@).to_set().contains(x) {
                let b = choose|b: int| 0 <= b < n && texts(v@)[b] == x;
                assert(order@.contains(b as usize));
                let a = choose|a: int| 0 <= a < n && order@[a] == b as usize;
                assert(texts(out@)[a] == x);
            }
        }
        assert(texts(out@).to_set() =~= texts(v@).to_set());
    }
    out
}

/// Moves the entry at `p` to the front, keeping the order of the others.
fn move_to_front(v: &mut Vec<String>, p: usize)
    requires
        p < old(v)@.len(),
        texts(old(v)@).no_duplicates(),
    ensures
        texts(final(v)@).no_duplicates(),
        texts(final(v)@).to_set() == texts(old(v)@).to_set(),
        final(v)@.len() > 0,
        final(v)@[0]@ == old(v)@[p as int]@,
{
    let ghost s = texts(v@);
    let x = v.remove(p);
    v.insert(0, x);
    proof {
        let t = texts(v@);
        assert(t =~= seq![s[p as int]] + s.remove(p as int));
        assert forall|a: int, b: int| 0 <= a < t.len() && 0 <= b < t.len() && a != b implies t[a] != t[b] by {
            let ia = if a == 0 { p as int } else if a - 1 < p { a - 1 } else { a };
            let ib = if b == 0 { p as int } else if b - 1 < p { b - 1 } else { b };
            assert(t[a] == s[ia]);
            assert(t[b] == s[ib]);
        }
        assert forall|y: Seq<char>| t.to_set().contains(y) <==> s.to_set().contains(y) by {
            if t.to_set().contains(y) {
                let a = choose|a: int| 0 <= a < t.len() && t[a] == y;
                let ia = if a == 0 { p as int } else if a - 1 < p { a - 1 } else { a };
                assert(s[ia] == y);
            }
            if s.to_set().contains(y) {
                let b = choose|b: int| 0 <= b < s.len() && s[b] == y;
                let ib = if b == p { 0 } else if b < p { b + 1 } else { b };
                assert(t[ib] == y);
            }
        }
        assert(t.to_set() =~= s.to_set());
    }
}

/// Ranks candidate servers for a client's join attempts: removes
/// duplicates, shuffles to spread load, then puts this server first if it is
/// a candidate, else the alias's origin server if that is one.
pub fn rank_servers(servers: Vec<String>, own: &String, origin: Option<&String>) -> (r: Vec<String>)
    ensures
        is_ranking_of(texts(r@), texts(servers@), own@, opt_text(origin)),
{
    let ghost input = texts(servers@);
    let mut v = shuffled(dedup(servers));
    match position_of(&v, own) {
        Some(p) => {
            move_to_front(&mut v, p);
            assert(texts(v@)[0] == own@);
        },
        None => {
            assert(!input.to_set().contains(own@));
            match origin {
                Some(o) => {
                    match position_of(&v, o) {
                        Some(p) => {
                            move_to_front(&mut v, p);
                            assert(texts(v@)[0] == o@);
                        },
                        None => {
                            assert(!texts(v@).to_set().contains(o@));
                        },
                    }
                },
                None => {},
            }
        },
    }
    v
}

/// Two candidate lists with the same servers, in whatever order and with
/// whatever repetitions, pin the same server first: every ranking of either
/// begins with it.
pub proof fn lemma_pinned_server_is_stable(
    a: Seq<Seq<char>>,
    b: Seq<Seq<char>>,
    ra: Seq<Seq<char>>,
    rb: Seq<Seq<char>>,
    own: Seq<char>,
    origin: Option<Seq<char>>,
)
    requires
        a.to_set() == b.to_set(),
        is_ranking_of(ra, a, own, origin),
        is_ranking_of(rb, b, own, origin),
        pinned_server(a.to_set(), own, origin) is Some,
    ensures
        ra.len() > 0 && rb.len() > 0 && ra[0] == rb[0],
        ra[0] == pinned_server(a.to_set(), own, origin)->0,
        a.to_set().contains(own) ==> ra[0] == own,
{
}

} // verus!
