//! One answer from the replies of several shards. A request goes to every shard; a
//! shard that does not reply, or whose reply is of the wrong kind, is left out.

use crate::cluster::{answers, gather, shard_for, ShardRequest, ShardResponse};
use crate::model::IdTriple;
use crate::order::{ascending, lists};
use crate::store::{all_objects, all_predicates, all_subjects, law_reads_find_the_triples, objects_of, objects_with, pairs_of_object, pairs_of_predicate, pairs_of_subject, predicates_between, spo_triple, subjects_of, subjects_with};
use vstd::prelude::*;

verus! {

/// The reply of a shard, if it came.
pub type Reply = Option<ShardResponse>;

/// Some shard says yes.
pub open spec fn some_yes(replies: Seq<Reply>) -> bool {
    exists|k: int| 0 <= k < replies.len() && #[trigger] replies[k] == Some(ShardResponse::Bool(true))
}

/// The pairs in a reply.
pub open spec fn pairs_in(r: Reply) -> Seq<(u32, u32)> {
    match r {
        Some(ShardResponse::Pairs(v)) => v@,
        _ => Seq::empty(),
    }
}

/// The ids in a reply.
pub open spec fn ids_in(r: Reply) -> Seq<u32> {
    match r {
        Some(ShardResponse::Ids(v)) => v@,
        _ => Seq::empty(),
    }
}

/// The count in a reply.
pub open spec fn count_in(r: Reply) -> nat {
    match r {
        Some(ShardResponse::Count(n)) => n as nat,
        _ => 0,
    }
}

/// Some shard has the pair.
pub open spec fn some_pair(replies: Seq<Reply>, x: (u32, u32)) -> bool {
    exists|k: int| 0 <= k < replies.len() && (#[trigger] pairs_in(replies[k])).contains(x)
}

/// Some shard has the id.
pub open spec fn some_id(replies: Seq<Reply>, x: u32) -> bool {
    exists|k: int| 0 <= k < replies.len() && (#[trigger] ids_in(replies[k])).contains(x)
}

/// The sum of the counts.
pub open spec fn total(replies: Seq<Reply>) -> nat
    decreases replies.len(),
{
    if replies.len() == 0 {
        0
    } else {
        total(replies.drop_last()) + count_in(replies.last())
    }
}

/// Whether a request is answered with pairs.
pub open spec fn wants_pairs(req: ShardRequest) -> bool {
    req is PoByS || req is PsByO || req is SoByP
}

/// Whether a request is answered with a count.
pub open spec fn wants_count(req: ShardRequest) -> bool {
    req is TripleCount || req is PredCard
}

/// The replies to a request, put together.
pub open spec fn merged(req: ShardRequest, replies: Seq<Reply>, r: ShardResponse) -> bool {
    if req is Exists || req is Insert {
        r == ShardResponse::Bool(some_yes(replies))
    } else if wants_pairs(req) {
        r matches ShardResponse::Pairs(v) && ascending(v@) && forall|x: (u32, u32)| #[trigger] v@.contains(x) <==> some_pair(replies, x)
    } else if wants_count(req) {
        r matches ShardResponse::Count(n) && n == total(replies)
    } else {
        r matches ShardResponse::Ids(v) && ascending(v@) && forall|x: u32| #[trigger] v@.contains(x) <==> some_id(replies, x)
    }
}

fn merge_yes(replies: Vec<Reply>) -> (b: bool)
    ensures
        b == some_yes(replies@),
{
    let mut i: usize = 0;
    while i < replies.len()
        invariant
            i <= replies@.len(),
            forall|k: int| 0 <= k < i ==> #[trigger] replies@[k] != Some(ShardResponse::Bool(true)),
        decreases replies.len() - i,
    {
        match &replies[i] {
            Some(ShardResponse::Bool(b)) => {
                if *b {
                    assert(replies@[i as int] == Some(ShardResponse::Bool(true)));
                    return true;
                }
            },
            _ => {},
        }
        i = i + 1;
    }
    false
}

fn merge_pairs(replies: Vec<Reply>) -> (r: Vec<(u32, u32)>)
    ensures
        ascending(r@),
        forall|x: (u32, u32)| #[trigger] r@.contains(x) <==> some_pair(replies@, x),
{
    let mut lists: Vec<Vec<(u32, u32)>> = Vec::new();
    let ghost all = replies@;
    for f in it: replies
        invariant
            it.seq() == all,
            lists@.len() == it.index(),
            forall|k: int| 0 <= k < lists@.len() ==> (#[trigger] lists@[k])@ == pairs_in(all[k]),
    {
        match f {
            Some(ShardResponse::Pairs(v)) => {
                lists.push(v);
            },
            _ => {
                lists.push(Vec::new());
            },
        }
    }
    let r: Vec<(u32, u32)> = gather(&lists);
    proof {
        assert forall|x: (u32, u32)| #[trigger] r@.contains(x) <==> some_pair(all, x) by {
            if r@.contains(x) {
                let k = choose|k: int| 0 <= k < lists@.len() && (#[trigger] lists@[k])@.contains(x);
                assert(pairs_in(all[k]).contains(x));
            }
            if some_pair(all, x) {
                let k = choose|k: int| 0 <= k < all.len() && (#[trigger] pairs_in(all[k])).contains(x);
                assert(lists@[k]@.contains(x));
            }
        }
    }
    r
}

fn merge_ids(replies: Vec<Reply>) -> (r: Vec<u32>)
    ensures
        ascending(r@),
        forall|x: u32| #[trigger] r@.contains(x) <==> some_id(replies@, x),
{
    let mut lists: Vec<Vec<u32>> = Vec::new();
    let ghost all = replies@;
    for f in it: replies
        invariant
            it.seq() == all,
            lists@.len() == it.index(),
            forall|k: int| 0 <= k < lists@.len() ==> (#[trigger] lists@[k])@ == ids_in(all[k]),
    {
        match f {
            Some(ShardResponse::Ids(v)) => {
                lists.push(v);
            },
            _ => {
                lists.push(Vec::new());
            },
        }
    }
    let r: Vec<u32> = gather(&lists);
    proof {
        assert forall|x: u32| #[trigger] r@.contains(x) <==> some_id(all, x) by {
            if r@.contains(x) {
                let k = choose|k: int| 0 <= k < lists@.len() && (#[trigger] lists@[k])@.contains(x);
                assert(ids_in(all[k]).contains(x));
            }
            if some_id(all, x) {
                let k = choose|k: int| 0 <= k < all.len() && (#[trigger] ids_in(all[k])).contains(x);
                assert(lists@[k]@.contains(x));
            }
        }
    }
    r
}

proof fn lemma_total(replies: Seq<Reply>, k: int)
    requires
        0 <= k <= replies.len(),
    ensures
        total(replies.take(k)) <= total(replies),
    decreases replies.len() - k,
{
    if k < replies.len() {
        assert(replies.take(k + 1).drop_last() =~= replies.take(k));
        lemma_total(replies, k + 1);
    } else {
        assert(replies.take(k) =~= replies);
    }
}

fn merge_counts(replies: Vec<Reply>) -> (n: u64)
    requires
        total(replies@) <= u64::MAX,
    ensures
        n == total(replies@),
{
    let mut n: u64 = 0;
    let mut i: usize = 0;
    assert(replies@.take(0) =~= Seq::<Reply>::empty());
    while i < replies.len()
        invariant
            i <= replies@.len(),
            n == total(replies@.take(i as int)),
            total(replies@) <= u64::MAX,
        decreases replies.len() - i,
    {
        proof {
            assert(replies@.take(i + 1).drop_last() =~= replies@.take(i as int));
            lemma_total(replies@, i + 1);
        }
        match &replies[i] {
            Some(ShardResponse::Count(c)) => {
                n = n + *c;
            },
            _ => {},
        }
        i = i + 1;
    }
    assert(replies@.take(i as int) =~= replies@);
    n
}

/// Put the replies of the shards to a request together.
pub fn merge(req: ShardRequest, replies: Vec<Reply>) -> (r: ShardResponse)
    requires
        wants_count(req) ==> total(replies@) <= u64::MAX,
    ensures
        merged(req, replies@, r),
{
    match req {
        ShardRequest::Exists { .. } | ShardRequest::Insert { .. } => ShardResponse::Bool(merge_yes(replies)),
        ShardRequest::PoByS { .. } | ShardRequest::PsByO { .. } | ShardRequest::SoByP { .. } => ShardResponse::Pairs(merge_pairs(replies)),
        ShardRequest::TripleCount | ShardRequest::PredCard { .. } => ShardResponse::Count(merge_counts(replies)),
        _ => ShardResponse::Ids(merge_ids(replies)),
    }
}

/// Some shard holds the triple.
pub open spec fn on_some(tss: Seq<Set<IdTriple>>, t: IdTriple) -> bool {
    exists|k: int| 0 <= k < tss.len() && (#[trigger] tss[k]).contains(t)
}

/// The triples of all shards.
pub open spec fn on_all(tss: Seq<Set<IdTriple>>) -> Set<IdTriple> {
    Set::new(|t: IdTriple| on_some(tss, t))
}

/// Every triple is on the shard of its subject.
pub open spec fn placed(tss: Seq<Set<IdTriple>>) -> bool {
    forall|k: int, t: IdTriple| 0 <= k < tss.len() && #[trigger] tss[k].contains(t) ==> shard_for(t.sub, tss.len() as int) == k
}

/// Each shard replied, and its reply answers the request on its triples.
pub open spec fn all_answered(tss: Seq<Set<IdTriple>>, req: ShardRequest, replies: Seq<Reply>) -> bool {
    &&& replies.len() == tss.len()
    &&& forall|k: int| 0 <= k < tss.len() ==> (#[trigger] replies[k]) is Some && answers(tss[k], req, replies[k]->0)
}

/// The pairs that a request asks for.
pub open spec fn asked_pairs(ts: Set<IdTriple>, req: ShardRequest) -> Set<(u32, u32)> {
    match req {
        ShardRequest::PoByS { sub } => pairs_of_subject(ts, sub),
        ShardRequest::PsByO { obj } => pairs_of_object(ts, obj),
        ShardRequest::SoByP { pred } => pairs_of_predicate(ts, pred),
        ShardRequest::PredCard { pred } => pairs_of_predicate(ts, pred),
        _ => Set::empty(),
    }
}

/// The ids that a request asks for.
pub open spec fn asked_ids(ts: Set<IdTriple>, req: ShardRequest) -> Set<u32> {
    match req {
        ShardRequest::OBySp { sub, pred } => objects_of(ts, sub, pred),
        ShardRequest::PBySo { sub, obj } => predicates_between(ts, sub, obj),
        ShardRequest::SByPo { pred, obj } => subjects_of(ts, pred, obj),
        ShardRequest::SubsByP { pred } => subjects_with(ts, pred),
        ShardRequest::ObjsByP { pred } => objects_with(ts, pred),
        ShardRequest::SubjectKeys => all_subjects(ts),
        ShardRequest::ObjectKeys => all_objects(ts),
        ShardRequest::Predicates => all_predicates(ts),
        _ => Set::empty(),
    }
}

proof fn lemma_pairs_union(tss: Seq<Set<IdTriple>>, req: ShardRequest, x: (u32, u32))
    ensures
        asked_pairs(on_all(tss), req).contains(x) <==> exists|k: int| 0 <= k < tss.len() && (#[trigger] asked_pairs(tss[k], req)).contains(x),
{
    let t = match req {
        ShardRequest::PoByS { sub } => spo_triple(sub, x.0, x.1),
        ShardRequest::PsByO { obj } => spo_triple(x.1, x.0, obj),
        ShardRequest::SoByP { pred } => spo_triple(x.0, pred, x.1),
        ShardRequest::PredCard { pred } => spo_triple(x.0, pred, x.1),
        _ => spo_triple(0, 0, 0),
    };
    if asked_pairs(on_all(tss), req).contains(x) {
        assert(on_some(tss, t));
        let k = choose|k: int| 0 <= k < tss.len() && (#[trigger] tss[k]).contains(t);
        assert(asked_pairs(tss[k], req).contains(x));
    }
    if exists|k: int| 0 <= k < tss.len() && (#[trigger] asked_pairs(tss[k], req)).contains(x) {
        let k = choose|k: int| 0 <= k < tss.len() && (#[trigger] asked_pairs(tss[k], req)).contains(x);
        assert(tss[k].contains(t));
        assert(on_some(tss, t));
    }
}

/// A triple for which a request asks for the id.
pub open spec fn shows(ts: Set<IdTriple>, req: ShardRequest, x: u32, a: u32, b: u32) -> bool {
    match req {
        ShardRequest::OBySp { sub, pred } => ts.contains(spo_triple(sub, pred, x)),
        ShardRequest::PBySo { sub, obj } => ts.contains(spo_triple(sub, x, obj)),
        ShardRequest::SByPo { pred, obj } => ts.contains(spo_triple(x, pred, obj)),
        ShardRequest::SubsByP { pred } => ts.contains(spo_triple(x, pred, a)),
        ShardRequest::ObjsByP { pred } => ts.contains(spo_triple(a, pred, x)),
        ShardRequest::SubjectKeys => ts.contains(spo_triple(x, a, b)),
        ShardRequest::ObjectKeys => ts.contains(spo_triple(a, b, x)),
        ShardRequest::Predicates => ts.contains(spo_triple(a, x, b)),
        _ => false,
    }
}

proof fn lemma_shows(ts: Set<IdTriple>, req: ShardRequest, x: u32)
    ensures
        asked_ids(ts, req).contains(x) <==> exists|a: u32, b: u32| #[trigger] shows(ts, req, x, a, b),
{
    if asked_ids(ts, req).contains(x) {
        match req {
            ShardRequest::SubsByP { pred } => {
                let a = choose|a: u32| ts.contains(#[trigger] spo_triple(x, pred, a));
                assert(shows(ts, req, x, a, 0));
            },
            ShardRequest::ObjsByP { pred } => {
                let a = choose|a: u32| ts.contains(#[trigger] spo_triple(a, pred, x));
                assert(shows(ts, req, x, a, 0));
            },
            ShardRequest::SubjectKeys => {
                let (a, b) = choose|a: u32, b: u32| ts.contains(#[trigger] spo_triple(x, a, b));
                assert(shows(ts, req, x, a, b));
            },
            ShardRequest::ObjectKeys => {
                let (a, b) = choose|a: u32, b: u32| ts.contains(#[trigger] spo_triple(a, b, x));
                assert(shows(ts, req, x, a, b));
            },
            ShardRequest::Predicates => {
                let (a, b) = choose|a: u32, b: u32| ts.contains(#[trigger] spo_triple(a, x, b));
                assert(shows(ts, req, x, a, b));
            },
            _ => {
                assert(shows(ts, req, x, 0, 0));
            },
        }
    }
    if exists|a: u32, b: u32| #[trigger] shows(ts, req, x, a, b) {
        let (a, b) = choose|a: u32, b: u32| #[trigger] shows(ts, req, x, a, b);
        assert(asked_ids(ts, req).contains(x));
    }
}

proof fn lemma_ids_union(tss: Seq<Set<IdTriple>>, req: ShardRequest, x: u32)
    ensures
        asked_ids(on_all(tss), req).contains(x) <==> exists|k: int| 0 <= k < tss.len() && (#[trigger] asked_ids(tss[k], req)).contains(x),
{
    let all = on_all(tss);
    lemma_shows(all, req, x);
    if asked_ids(all, req).contains(x) {
        let (a, b) = choose|a: u32, b: u32| #[trigger] shows(all, req, x, a, b);
        let t = match req {
            ShardRequest::OBySp { sub, pred } => spo_triple(sub, pred, x),
            ShardRequest::PBySo { sub, obj } => spo_triple(sub, x, obj),
            ShardRequest::SByPo { pred, obj } => spo_triple(x, pred, obj),
            ShardRequest::SubsByP { pred } => spo_triple(x, pred, a),
            ShardRequest::ObjsByP { pred } => spo_triple(a, pred, x),
            ShardRequest::SubjectKeys => spo_triple(x, a, b),
            ShardRequest::ObjectKeys => spo_triple(a, b, x),
            _ => spo_triple(a, x, b),
        };
        assert(on_some(tss, t));
        let k = choose|k: int| 0 <= k < tss.len() && (#[trigger] tss[k]).contains(t);
        lemma_shows(tss[k], req, x);
        assert(shows(tss[k], req, x, a, b));
        assert(asked_ids(tss[k], req).contains(x));
    }
    if exists|k: int| 0 <= k < tss.len() && (#[trigger] asked_ids(tss[k], req)).contains(x) {
        let k = choose|k: int| 0 <= k < tss.len() && (#[trigger] asked_ids(tss[k], req)).contains(x);
        lemma_shows(tss[k], req, x);
        let (a, b) = choose|a: u32, b: u32| #[trigger] shows(tss[k], req, x, a, b);
        assert forall|t: IdTriple| tss[k].contains(t) implies all.contains(t) by {
            assert(on_some(tss, t));
        }
        assert(shows(all, req, x, a, b));
    }
}

/// The elements of the first `n` sets.
pub open spec fn in_first<T>(sets: Seq<Set<T>>, n: int) -> Set<T> {
    Set::new(|x: T| exists|k: int| 0 <= k < n && (#[trigger] sets[k]).contains(x))
}

/// The sizes of the first `n` sets, added up.
pub open spec fn sizes<T>(sets: Seq<Set<T>>, n: int) -> nat
    decreases n,
{
    if n <= 0 {
        0
    } else {
        sizes(sets, n - 1) + sets[n - 1].len()
    }
}

proof fn lemma_sizes<T>(sets: Seq<Set<T>>, n: int)
    requires
        0 <= n <= sets.len(),
        forall|k: int| 0 <= k < sets.len() ==> (#[trigger] sets[k]).finite(),
        forall|i: int, j: int, x: T| 0 <= i < j < sets.len() && #[trigger] sets[i].contains(x) ==> !(#[trigger] sets[j].contains(x)),
    ensures
        in_first(sets, n).finite(),
        in_first(sets, n).len() == sizes(sets, n),
    decreases n,
{
    if n == 0 {
        assert(in_first(sets, n) =~= Set::<T>::empty());
    } else {
        lemma_sizes(sets, n - 1);
        let a = in_first(sets, n - 1);
        let b = sets[n - 1];
        assert(in_first(sets, n) =~= a.union(b)) by {
            assert forall|x: T| in_first(sets, n).contains(x) <==> a.union(b).contains(x) by {
                if b.contains(x) {
                    assert(sets[n - 1].contains(x));
                }
            }
        }
        assert(a.disjoint(b));
        vstd::set_lib::lemma_set_disjoint_lens(a, b);
    }
}

proof fn lemma_counted<T>(sets: Seq<Set<T>>, replies: Seq<Reply>, n: int)
    requires
        0 <= n <= sets.len(),
        replies.len() == sets.len(),
        forall|k: int| 0 <= k < sets.len() ==> count_in(#[trigger] replies[k]) == sets[k].len(),
    ensures
        total(replies.take(n)) == sizes(sets, n),
    decreases n,
{
    if n > 0 {
        lemma_counted(sets, replies, n - 1);
        assert(replies.take(n).drop_last() =~= replies.take(n - 1));
        assert(replies.take(n).last() == replies[n - 1]);
    }
}

/// The shards together are one store: where every triple is on the shard of its
/// subject and every shard answers a read, the merged reply answers it on all
/// triples.
#[verifier::spinoff_prover]
#[verifier::rlimit(40)]
pub proof fn law_shards_answer_as_one(tss: Seq<Set<IdTriple>>, req: ShardRequest, replies: Seq<Reply>, r: ShardResponse)
    requires
        !(req is Insert),
        placed(tss),
        forall|k: int| 0 <= k < tss.len() ==> (#[trigger] tss[k]).finite(),
        all_answered(tss, req, replies),
        merged(req, replies, r),
    ensures
        answers(on_all(tss), req, r),
{
    let all = on_all(tss);
    if req is Exists {
        lemma_exists_merged(tss, req, replies);
    } else if wants_pairs(req) {
        let v = r->Pairs_0@;
        assert forall|x: (u32, u32)| #[trigger] asked_pairs(all, req).contains(x) <==> v.contains(x) by {
            lemma_pairs_union(tss, req, x);
            if some_pair(replies, x) {
                let k = choose|k: int| 0 <= k < replies.len() && (#[trigger] pairs_in(replies[k])).contains(x);
                assert(replies[k] is Some);
                assert(asked_pairs(tss[k], req).contains(x));
            }
            if exists|k: int| 0 <= k < tss.len() && (#[trigger] asked_pairs(tss[k], req)).contains(x) {
                let k = choose|k: int| 0 <= k < tss.len() && (#[trigger] asked_pairs(tss[k], req)).contains(x);
                assert(replies[k] is Some);
                assert(pairs_in(replies[k]).contains(x));
            }
        }
        assert(lists(v, asked_pairs(all, req)));
    } else if wants_count(req) {
        lemma_counts_merged(tss, req, replies);
    } else {
        let v = r->Ids_0@;
        assert forall|x: u32| #[trigger] asked_ids(all, req).contains(x) <==> v.contains(x) by {
            lemma_ids_union(tss, req, x);
            if some_id(replies, x) {
                let k = choose|k: int| 0 <= k < replies.len() && (#[trigger] ids_in(replies[k])).contains(x);
                assert(replies[k] is Some);
                assert(asked_ids(tss[k], req).contains(x));
            }
            if exists|k: int| 0 <= k < tss.len() && (#[trigger] asked_ids(tss[k], req)).contains(x) {
                let k = choose|k: int| 0 <= k < tss.len() && (#[trigger] asked_ids(tss[k], req)).contains(x);
                assert(replies[k] is Some);
                assert(ids_in(replies[k]).contains(x));
            }
        }
        assert(lists(v, asked_ids(all, req)));
    }
}

proof fn lemma_exists_merged(tss: Seq<Set<IdTriple>>, req: ShardRequest, replies: Seq<Reply>)
    requires
        req is Exists,
        all_answered(tss, req, replies),
    ensures
        some_yes(replies) == on_all(tss).contains(spo_triple(req->Exists_sub, req->Exists_pred, req->Exists_obj)),
{
    let t = spo_triple(req->Exists_sub, req->Exists_pred, req->Exists_obj);
    if some_yes(replies) {
        let k = choose|k: int| 0 <= k < replies.len() && #[trigger] replies[k] == Some(ShardResponse::Bool(true));
        assert(tss[k].contains(t));
        assert(on_some(tss, t));
    }
    if on_some(tss, t) {
        let k = choose|k: int| 0 <= k < tss.len() && (#[trigger] tss[k]).contains(t);
        assert(replies[k] is Some);
        assert(replies[k] == Some(ShardResponse::Bool(true)));
    }
}

proof fn lemma_counts_merged(tss: Seq<Set<IdTriple>>, req: ShardRequest, replies: Seq<Reply>)
    requires
        wants_count(req),
        placed(tss),
        forall|k: int| 0 <= k < tss.len() ==> (#[trigger] tss[k]).finite(),
        all_answered(tss, req, replies),
    ensures
        req is TripleCount ==> total(replies) == on_all(tss).len(),
        req is PredCard ==> total(replies) == asked_pairs(on_all(tss), req).len(),
{
    let n = tss.len() as int;
    assert(replies.take(n) =~= replies);
    if req is TripleCount {
        assert forall|k: int| 0 <= k < n implies count_in(#[trigger] replies[k]) == tss[k].len() by {
            assert(replies[k] is Some);
        }
        lemma_counted(tss, replies, n);
        lemma_sizes(tss, n);
        assert(in_first(tss, n) =~= on_all(tss));
    } else {
        let sets = Seq::new(tss.len(), |k: int| asked_pairs(tss[k], req));
        assert forall|k: int| 0 <= k < n implies count_in(#[trigger] replies[k]) == sets[k].len() by {
            assert(replies[k] is Some);
        }
        lemma_counted(sets, replies, n);
        let p = req->PredCard_pred;
        assert forall|k: int| 0 <= k < n implies (#[trigger] sets[k]).finite() by {
            lemma_pairs_finite(tss[k], p);
        }
        assert forall|i: int, j: int, x: (u32, u32)| 0 <= i < j < n && #[trigger] sets[i].contains(x) implies !(#[trigger] sets[j].contains(x)) by {
            let t = spo_triple(x.0, p, x.1);
            assert(tss[i].contains(t));
            if sets[j].contains(x) {
                assert(tss[j].contains(t));
            }
        }
        lemma_sizes(sets, n);
        assert forall|x: (u32, u32)| in_first(sets, n).contains(x) <==> asked_pairs(on_all(tss), req).contains(x) by {
            lemma_pairs_union(tss, req, x);
            if in_first(sets, n).contains(x) {
                let k = choose|k: int| 0 <= k < n && (#[trigger] sets[k]).contains(x);
                assert(asked_pairs(tss[k], req).contains(x));
            }
            if asked_pairs(on_all(tss), req).contains(x) {
                let k = choose|k: int| 0 <= k < tss.len() && (#[trigger] asked_pairs(tss[k], req)).contains(x);
                assert(sets[k].contains(x));
            }
        }
        assert(in_first(sets, n) =~= asked_pairs(on_all(tss), req));
    }
}

proof fn lemma_pairs_finite(ts: Set<IdTriple>, p: u32)
    requires
        ts.finite(),
    ensures
        pairs_of_predicate(ts, p).finite(),
{
    let f = |t: IdTriple| (t.sub, t.obj);
    let image = ts.map(f);
    ts.lemma_map_finite(f);
    assert forall|x: (u32, u32)| pairs_of_predicate(ts, p).contains(x) implies image.contains(x) by {
        let t = spo_triple(x.0, p, x.1);
        assert(ts.contains(t) && f(t) == x);
    }
    vstd::set_lib::lemma_set_subset_finite(image, pairs_of_predicate(ts, p));
}

/// An insertion on the shard of its subject keeps every triple on the shard of its
/// subject, and adds the triple to those of all shards.
pub proof fn law_routed_insert_keeps_placement(tss: Seq<Set<IdTriple>>, t: IdTriple)
    requires
        tss.len() > 0,
        placed(tss),
    ensures
        ({
            let k = shard_for(t.sub, tss.len() as int);
            let after = tss.update(k, tss[k].insert(t));
            &&& 0 <= k < tss.len()
            &&& placed(after)
            &&& on_all(after) == on_all(tss).insert(t)
        }),
{
    let n = tss.len() as int;
    let k = shard_for(t.sub, n);
    let after = tss.update(k, tss[k].insert(t));
    assert forall|j: int, u: IdTriple| 0 <= j < after.len() && #[trigger] after[j].contains(u) implies shard_for(u.sub, n) == j by {
        if u != t || j != k {
            assert(tss[j].contains(u));
        }
    }
    assert forall|u: IdTriple| on_all(after).contains(u) <==> on_all(tss).insert(t).contains(u) by {
        if on_some(after, u) && u != t {
            let j = choose|j: int| 0 <= j < after.len() && (#[trigger] after[j]).contains(u);
            assert(tss[j].contains(u));
        }
        if on_some(tss, u) {
            let j = choose|j: int| 0 <= j < tss.len() && (#[trigger] tss[j]).contains(u);
            assert(after[j].contains(u));
        }
        if u == t {
            assert(after[k].contains(t));
        }
    }
    assert(on_all(after) =~= on_all(tss).insert(t));
}

/// A reply tells what is there: an existence check whether the triple is, an insert
/// whether it was not yet, a read exactly the ids of the triples that match, in
/// ascending order, and a count how many triples there are.
pub proof fn law_replies_tell_what_is_there(ts: Set<IdTriple>, s: u32, p: u32, o: u32, r: ShardResponse)
    ensures
        answers(ts, ShardRequest::Exists { sub: s, pred: p, obj: o }, r) ==> r == ShardResponse::Bool(ts.contains(IdTriple { sub: s, pred: p, obj: o })),
        answers(ts, ShardRequest::Insert { sub: s, pred: p, obj: o }, r) ==> r == ShardResponse::Bool(!ts.contains(IdTriple { sub: s, pred: p, obj: o })),
        answers(ts, ShardRequest::PoByS { sub: s }, r) ==> (r matches ShardResponse::Pairs(v) && (v@.contains((p, o)) <==> ts.contains(IdTriple { sub: s, pred: p, obj: o }))),
        answers(ts, ShardRequest::PsByO { obj: o }, r) ==> (r matches ShardResponse::Pairs(v) && (v@.contains((p, s)) <==> ts.contains(IdTriple { sub: s, pred: p, obj: o }))),
        answers(ts, ShardRequest::SoByP { pred: p }, r) ==> (r matches ShardResponse::Pairs(v) && (v@.contains((s, o)) <==> ts.contains(IdTriple { sub: s, pred: p, obj: o }))),
        answers(ts, ShardRequest::OBySp { sub: s, pred: p }, r) ==> (r matches ShardResponse::Ids(v) && (v@.contains(o) <==> ts.contains(IdTriple { sub: s, pred: p, obj: o }))),
        answers(ts, ShardRequest::PBySo { sub: s, obj: o }, r) ==> (r matches ShardResponse::Ids(v) && (v@.contains(p) <==> ts.contains(IdTriple { sub: s, pred: p, obj: o }))),
        answers(ts, ShardRequest::SByPo { pred: p, obj: o }, r) ==> (r matches ShardResponse::Ids(v) && (v@.contains(s) <==> ts.contains(IdTriple { sub: s, pred: p, obj: o }))),
        answers(ts, ShardRequest::SubsByP { pred: p }, r) ==> (r matches ShardResponse::Ids(v) && (v@.contains(s) <==> exists|t: IdTriple| #[trigger] ts.contains(t) && t.sub == s && t.pred == p)),
        answers(ts, ShardRequest::ObjsByP { pred: p }, r) ==> (r matches ShardResponse::Ids(v) && (v@.contains(o) <==> exists|t: IdTriple| #[trigger] ts.contains(t) && t.obj == o && t.pred == p)),
        answers(ts, ShardRequest::SubjectKeys, r) ==> (r matches ShardResponse::Ids(v) && (v@.contains(s) <==> exists|t: IdTriple| #[trigger] ts.contains(t) && t.sub == s)),
        answers(ts, ShardRequest::ObjectKeys, r) ==> (r matches ShardResponse::Ids(v) && (v@.contains(o) <==> exists|t: IdTriple| #[trigger] ts.contains(t) && t.obj == o)),
        answers(ts, ShardRequest::Predicates, r) ==> (r matches ShardResponse::Ids(v) && (v@.contains(p) <==> exists|t: IdTriple| #[trigger] ts.contains(t) && t.pred == p)),
        answers(ts, ShardRequest::TripleCount, r) ==> (r matches ShardResponse::Count(n) && n == ts.len()),
        ts.finite() && answers(ts, ShardRequest::PredCard { pred: p }, r) ==> (r matches ShardResponse::Count(n) && n == ts.filter(|t: IdTriple| t.pred == p).len()),
{
    law_reads_find_the_triples(ts, s, p, o);
    if ts.finite() {
        lemma_pairs_are_triples(ts, p);
    }
}

/// There are as many pairs under a predicate as triples with it.
proof fn lemma_pairs_are_triples(ts: Set<IdTriple>, p: u32)
    requires
        ts.finite(),
    ensures
        pairs_of_predicate(ts, p).len() == ts.filter(|t: IdTriple| t.pred == p).len(),
{
    let own = ts.filter(|t: IdTriple| t.pred == p);
    let f = |t: IdTriple| (t.sub, t.obj);
    assert forall|x: (u32, u32)| #[trigger] pairs_of_predicate(ts, p).contains(x) <==> own.map(f).contains(x) by {
        law_reads_find_the_triples(ts, x.0, p, x.1);
        if pairs_of_predicate(ts, p).contains(x) {
            let t = IdTriple { sub: x.0, pred: p, obj: x.1 };
            assert(own.contains(t));
            assert(f(t) == x);
        }
        if own.map(f).contains(x) {
            let t = choose|t: IdTriple| own.contains(t) && f(t) == x;
            assert(t == (IdTriple { sub: x.0, pred: p, obj: x.1 }));
        }
    }
    assert(pairs_of_predicate(ts, p) =~= own.map(f));
    assert(own.finite());
    vstd::set_lib::lemma_map_size(own, own.map(f), f);
}

/// A shard that did not reply does not count: without it the replies make the same.
pub proof fn law_silent_shards_do_not_count(req: ShardRequest, replies: Seq<Reply>, k: int, r: ShardResponse)
    requires
        0 <= k < replies.len(),
        replies[k] is None,
        merged(req, replies, r),
    ensures
        merged(req, replies.remove(k), r),
{
    let left = replies.remove(k);
    lemma_total_without(replies, k);
    assert forall|i: int| 0 <= i < left.len() implies #[trigger] left[i] == replies[if i < k { i } else { i + 1 }] by {
    }
    assert forall|i: int| 0 <= i < replies.len() && i != k implies #[trigger] replies[i] == left[if i < k { i } else { i - 1 }] by {
    }
    if some_yes(replies) {
        let i = choose|i: int| 0 <= i < replies.len() && #[trigger] replies[i] == Some(ShardResponse::Bool(true));
        assert(left[if i < k { i } else { i - 1 }] == Some(ShardResponse::Bool(true)));
    }
    if some_yes(left) {
        let i = choose|i: int| 0 <= i < left.len() && #[trigger] left[i] == Some(ShardResponse::Bool(true));
        assert(replies[if i < k { i } else { i + 1 }] == Some(ShardResponse::Bool(true)));
    }
    assert forall|x: (u32, u32)| #[trigger] some_pair(replies, x) <==> some_pair(left, x) by {
        if some_pair(replies, x) {
            let i = choose|i: int| 0 <= i < replies.len() && (#[trigger] pairs_in(replies[i])).contains(x);
            assert(pairs_in(left[if i < k { i } else { i - 1 }]).contains(x));
        }
        if some_pair(left, x) {
            let i = choose|i: int| 0 <= i < left.len() && (#[trigger] pairs_in(left[i])).contains(x);
            assert(pairs_in(replies[if i < k { i } else { i + 1 }]).contains(x));
        }
    }
    assert forall|x: u32| #[trigger] some_id(replies, x) <==> some_id(left, x) by {
        if some_id(replies, x) {
            let i = choose|i: int| 0 <= i < replies.len() && (#[trigger] ids_in(replies[i])).contains(x);
            assert(ids_in(left[if i < k { i } else { i - 1 }]).contains(x));
        }
        if some_id(left, x) {
            let i = choose|i: int| 0 <= i < left.len() && (#[trigger] ids_in(left[i])).contains(x);
            assert(ids_in(replies[if i < k { i } else { i + 1 }]).contains(x));
        }
    }
}

proof fn lemma_total_without(replies: Seq<Reply>, k: int)
    requires
        0 <= k < replies.len(),
        replies[k] is None,
    ensures
        total(replies.remove(k)) == total(replies),
    decreases replies.len(),
{
    if k == replies.len() - 1 {
        assert(replies.remove(k) =~= replies.drop_last());
    } else {
        lemma_total_without(replies.drop_last(), k);
        assert(replies.remove(k).drop_last() =~= replies.drop_last().remove(k));
        assert(replies.remove(k).last() == replies.last());
    }
}

} // verus!
