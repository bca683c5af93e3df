use gstore::cluster::{dispatch, shard_of, ShardRequest, ShardResponse};
use gstore::model::IdTriple;
use gstore::scatter::merge;
use gstore::store::TripleStore;

fn spread(n: usize) -> (TripleStore, Vec<TripleStore>) {
    let mut single = TripleStore::new();
    let mut shards: Vec<TripleStore> = (0..n).map(|_| TripleStore::new()).collect();
    for s in 0..12u32 {
        for p in 0..3u32 {
            for o in [100 + p, 200 + (s + p) % 5] {
                let t = IdTriple::new(s, p, o);
                let req = ShardRequest::Insert { sub: s, pred: p, obj: o };
                let new = single.insert(t);
                let r = dispatch(&mut shards[shard_of(s, n)], req);
                assert!(matches!(r, ShardResponse::Bool(b) if b == new));
            }
        }
    }
    (single, shards)
}

fn ask(shards: &mut Vec<TripleStore>, req: ShardRequest) -> ShardResponse {
    let replies = shards.iter_mut().map(|s| Some(dispatch(s, req))).collect();
    merge(req, replies)
}

#[test]
fn shards_answer_as_one_store() {
    let (mut single, mut shards) = spread(3);
    let requests = [
        ShardRequest::Exists { sub: 1, pred: 1, obj: 101 },
        ShardRequest::Exists { sub: 1, pred: 1, obj: 1 },
        ShardRequest::PoByS { sub: 4 },
        ShardRequest::OBySp { sub: 4, pred: 2 },
        ShardRequest::PBySo { sub: 4, obj: 102 },
        ShardRequest::PsByO { obj: 201 },
        ShardRequest::SByPo { pred: 1, obj: 203 },
        ShardRequest::SoByP { pred: 2 },
        ShardRequest::SubsByP { pred: 0 },
        ShardRequest::ObjsByP { pred: 0 },
        ShardRequest::SubjectKeys,
        ShardRequest::ObjectKeys,
        ShardRequest::Predicates,
        ShardRequest::TripleCount,
        ShardRequest::PredCard { pred: 1 },
    ];
    for req in requests {
        let one = dispatch(&mut single, req);
        let all = ask(&mut shards, req);
        assert_eq!(format!("{one:?}"), format!("{all:?}"), "{req:?}");
    }
    assert!(matches!(ask(&mut shards, ShardRequest::TripleCount), ShardResponse::Count(72)));
}

#[test]
fn a_shard_that_does_not_reply_is_left_out() {
    let req = ShardRequest::SubjectKeys;
    let r = merge(req, vec![Some(ShardResponse::Ids(vec![3, 1])), None, Some(ShardResponse::Count(9)), Some(ShardResponse::Ids(vec![1, 2]))]);
    assert!(matches!(r, ShardResponse::Ids(v) if v == vec![1, 2, 3]));
    let r = merge(ShardRequest::TripleCount, vec![Some(ShardResponse::Count(4)), None, Some(ShardResponse::Bool(true))]);
    assert!(matches!(r, ShardResponse::Count(4)));
    let r = merge(ShardRequest::Exists { sub: 0, pred: 0, obj: 0 }, vec![None, Some(ShardResponse::Bool(false))]);
    assert!(matches!(r, ShardResponse::Bool(false)));
    let r = merge(ShardRequest::PoByS { sub: 0 }, Vec::new());
    assert!(matches!(r, ShardResponse::Pairs(v) if v.is_empty()));
}
