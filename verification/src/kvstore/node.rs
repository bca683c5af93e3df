//! The pages of a B+ tree: a node with its keys, and with values or children.

use super::wal::{PageId, PAGE_SIZE};
use crate::codec::{get16, get32, le16, le32, lemma_le16, lemma_le32, push_le16, push_le32, push_slice, read_le16, read_le32, slice_copy};
use vstd::prelude::*;

verus! {

/// Bytes that come before the entries of a node.
pub const NODE_HEAD: usize = 7;

/// A node page. In a leaf, `link` is the next leaf, or 0; each key has a value. In
/// an inner node, `link` is the first child, and each key has the child for what
/// does not come before it.
#[verifier::ext_equal]
pub ghost struct NodeSpec {
    pub leaf: bool,
    pub link: u32,
    pub keys: Seq<Seq<u8>>,
    pub vals: Seq<Seq<u8>>,
    pub children: Seq<u32>,
}

/// What was read of a page: the entries, and where they end.
#[verifier::ext_equal]
pub ghost struct Parsed {
    pub off: int,
    pub keys: Seq<Seq<u8>>,
    pub vals: Seq<Seq<u8>>,
    pub children: Seq<u32>,
}

/// A length and as many bytes, at `off`.
pub open spec fn string_at(page: Seq<u8>, off: int) -> Option<Seq<u8>> {
    if off + 2 <= page.len() && off + 2 + get16(page, off) <= page.len() {
        Some(page.subrange(off + 2, off + 2 + get16(page, off)))
    } else {
        None
    }
}

/// One more entry.
pub open spec fn next_entry(page: Seq<u8>, leaf: bool, p: Parsed) -> Option<Parsed> {
    match string_at(page, p.off) {
        None => None,
        Some(key) => {
            let off = p.off + 2 + key.len();
            if leaf {
                match string_at(page, off) {
                    None => None,
                    Some(val) => Some(Parsed { off: off + 2 + val.len(), keys: p.keys.push(key), vals: p.vals.push(val), children: p.children }),
                }
            } else if off + 4 <= page.len() {
                Some(Parsed { off: off + 4, keys: p.keys.push(key), vals: p.vals, children: p.children.push(get32(page, off)) })
            } else {
                None
            }
        },
    }
}

/// The first `n` entries of a page.
pub open spec fn entries_read(page: Seq<u8>, leaf: bool, n: nat) -> Option<Parsed>
    decreases n,
{
    if n == 0 {
        Some(Parsed { off: NODE_HEAD as int, keys: Seq::empty(), vals: Seq::empty(), children: Seq::empty() })
    } else {
        match entries_read(page, leaf, (n - 1) as nat) {
            None => None,
            Some(p) => next_entry(page, leaf, p),
        }
    }
}

/// The node on a page.
pub open spec fn node_of(page: Seq<u8>) -> Option<NodeSpec> {
    match entries_read(page, page[0] != 0, get16(page, 5) as nat) {
        None => None,
        Some(p) => Some(NodeSpec { leaf: page[0] != 0, link: get32(page, 1), keys: p.keys, vals: p.vals, children: p.children }),
    }
}

/// The keys have values or children, as the sort of node asks.
pub open spec fn shaped(n: NodeSpec) -> bool {
    if n.leaf {
        n.vals.len() == n.keys.len() && n.children.len() == 0
    } else {
        n.children.len() == n.keys.len() && n.vals.len() == 0
    }
}

/// The size of an entry.
pub open spec fn entry_size(n: NodeSpec, i: int) -> nat {
    2 + n.keys[i].len() + (if n.leaf {
        2 + n.vals[i].len()
    } else {
        4
    })
}

/// The size of the first entries, with what comes before them.
pub open spec fn size_to(n: NodeSpec, k: nat) -> nat
    decreases k,
{
    if k == 0 {
        NODE_HEAD as nat
    } else {
        size_to(n, (k - 1) as nat) + entry_size(n, k - 1)
    }
}

/// The size of a node.
pub open spec fn node_size(n: NodeSpec) -> nat {
    size_to(n, n.keys.len())
}

/// The node fits a page.
pub open spec fn fits_page(n: NodeSpec) -> bool {
    node_size(n) <= PAGE_SIZE
}

proof fn lemma_size_bound(n: NodeSpec, j: nat, k: nat)
    requires
        j <= k,
    ensures
        size_to(n, j) + 6 * (k - j) <= size_to(n, k) || n.leaf,
        size_to(n, j) + 4 * (k - j) <= size_to(n, k),
    decreases k,
{
    if j < k {
        lemma_size_bound(n, j, (k - 1) as nat);
    }
}

/// The size of some entries depends on those entries alone.
pub proof fn lemma_size_ext(a: NodeSpec, b: NodeSpec, k: nat)
    requires
        a.leaf == b.leaf,
        k <= a.keys.len(),
        k <= b.keys.len(),
        a.keys.take(k as int) == b.keys.take(k as int),
        shaped(a),
        shaped(b),
        a.leaf ==> a.vals.take(k as int) == b.vals.take(k as int),
    ensures
        size_to(a, k) == size_to(b, k),
    decreases k,
{
    if k > 0 {
        let j = (k - 1) as int;
        assert(a.keys.take(j) =~= a.keys.take(k as int).take(j));
        assert(b.keys.take(j) =~= b.keys.take(k as int).take(j));
        assert(a.keys.take(k as int)[j] == a.keys[j]);
        assert(b.keys.take(k as int)[j] == b.keys[j]);
        if a.leaf {
            assert(a.vals.take(j) =~= a.vals.take(k as int).take(j));
            assert(b.vals.take(j) =~= b.vals.take(k as int).take(j));
            assert(a.vals.take(k as int)[j] == a.vals[j]);
            assert(b.vals.take(k as int)[j] == b.vals[j]);
        }
        lemma_size_ext(a, b, j as nat);
    }
}

/// Byte strings as mathematical values.
pub open spec fn views(v: Seq<Vec<u8>>) -> Seq<Seq<u8>> {
    v.map_values(|b: Vec<u8>| b@)
}

/// A node in memory.
pub struct Node {
    pub leaf: bool,
    pub link: PageId,
    pub keys: Vec<Vec<u8>>,
    pub vals: Vec<Vec<u8>>,
    pub children: Vec<PageId>,
}

impl View for Node {
    type V = NodeSpec;

    open spec fn view(&self) -> NodeSpec {
        NodeSpec { leaf: self.leaf, link: self.link, keys: views(self.keys@), vals: views(self.vals@), children: self.children@ }
    }
}

impl Node {
    /// The size of the node on a page. Stops counting above the size of a page.
    pub fn size(&self) -> (n: usize)
        requires
            shaped(self@),
        ensures
            n <= PAGE_SIZE <==> fits_page(self@),
            n <= PAGE_SIZE ==> n == node_size(self@),
    {
        let mut n: usize = NODE_HEAD;
        let mut i: usize = 0;
        let ghost s = self@;
        while i < self.keys.len()
            invariant
                s == self@,
                shaped(s),
                i <= self.keys@.len(),
                n == size_to(s, i as nat),
                n <= PAGE_SIZE,
            decreases self.keys.len() - i,
        {
            assert(s.keys[i as int] == self.keys@[i as int]@);
            proof {
                lemma_size_bound(s, (i + 1) as nat, s.keys.len());
                if s.leaf {
                    assert(s.vals[i as int] == self.vals@[i as int]@);
                }
            }
            let k: usize = self.keys[i].len();
            if k > PAGE_SIZE {
                return PAGE_SIZE + 1;
            }
            n = n + 2 + k;
            if self.leaf {
                let v: usize = self.vals[i].len();
                if v > PAGE_SIZE {
                    return PAGE_SIZE + 1;
                }
                n = n + 2 + v;
            } else {
                n = n + 4;
            }
            if n > PAGE_SIZE {
                return PAGE_SIZE + 1;
            }
            i = i + 1;
        }
        n
    }

    /// The page of the node.
    #[verifier::spinoff_prover]
    #[verifier::rlimit(30)]
    pub fn serialize(&self) -> (r: Vec<u8>)
        requires
            shaped(self@),
            fits_page(self@),
        ensures
            r@.len() == PAGE_SIZE,
            node_of(r@) == Some(self@),
    {
        let ghost s = self@;
        let mut out: Vec<u8> = Vec::new();
        out.push(if self.leaf { 1 } else { 0 });
        push_le32(&mut out, self.link);
        proof {
            lemma_size_bound(s, 0, s.keys.len());
        }
        push_le16(&mut out, self.keys.len() as u16);
        let ghost head = out@;
        assert(head.subrange(1, 5) =~= le32(s.link));
        assert(head.subrange(5, 7) =~= le16(s.keys.len() as u16));
        let mut i: usize = 0;
        while i < self.keys.len()
            invariant
                s == self@,
                shaped(s),
                fits_page(s),
                i <= self.keys@.len(),
                out@.len() == size_to(s, i as nat),
                written(s, out@, i as nat),
                head.len() == NODE_HEAD,
                out@.take(NODE_HEAD as int) == head,
            decreases self.keys.len() - i,
        {
            let ghost before = out@;
            assert(s.keys[i as int] == self.keys@[i as int]@);
            proof {
                lemma_size_bound(s, (i + 1) as nat, s.keys.len());
                lemma_size_bound(s, 0, i as nat);
                if s.leaf {
                    assert(s.vals[i as int] == self.vals@[i as int]@);
                }
            }
            push_le16(&mut out, self.keys[i].len() as u16);
            push_slice(&mut out, &self.keys[i]);
            if self.leaf {
                push_le16(&mut out, self.vals[i].len() as u16);
                push_slice(&mut out, &self.vals[i]);
            } else {
                push_le32(&mut out, self.children[i]);
            }
            proof {
                assert(out@ =~= before + entry_bytes(s, i as int));
                lemma_written(s, before, i as nat);
                assert(out@.take(NODE_HEAD as int) =~= before.take(NODE_HEAD as int));
            }
            i = i + 1;
        }
        let ghost bytes = out@;
        while out.len() < PAGE_SIZE
            invariant
                bytes.len() <= out@.len() <= PAGE_SIZE,
                out@.take(bytes.len() as int) == bytes,
            decreases PAGE_SIZE - out.len(),
        {
            out.push(0);
            assert(out@.take(bytes.len() as int) =~= bytes);
        }
        proof {
            lemma_size_bound(s, 0, s.keys.len());
            assert(out@.take(NODE_HEAD as int) =~= bytes.take(NODE_HEAD as int));
            assert(head =~= out@.take(NODE_HEAD as int));
            assert(out@[0] == head[0]);
            assert(out@.subrange(1, 5) =~= head.subrange(1, 5));
            assert(out@.subrange(5, 7) =~= head.subrange(5, 7));
            lemma_le32(s.link, out@, 1);
            lemma_le16(s.keys.len() as u16, out@, 5);
            lemma_read_written(s, bytes, out@, s.keys.len());
            assert(s.keys.take(s.keys.len() as int) =~= s.keys);
            assert(s.leaf ==> s.vals.take(s.keys.len() as int) =~= s.vals);
            assert(!s.leaf ==> s.children.take(s.keys.len() as int) =~= s.children);
            assert(s.leaf ==> s.children =~= Seq::<u32>::empty());
            assert(!s.leaf ==> s.vals =~= Seq::<Seq<u8>>::empty());
        }
        out
    }

    /// The node on a page.
    #[verifier::spinoff_prover]
    pub fn parse(page: &Vec<u8>) -> (r: Node)
        requires
            page@.len() == PAGE_SIZE,
            node_of(page@) is Some,
        ensures
            node_of(page@) == Some(r@),
            shaped(r@),
    {
        let leaf: bool = page[0] != 0;
        let link: u32 = read_le32(page, 1);
        let count: usize = read_le16(page, 5) as usize;
        let mut keys: Vec<Vec<u8>> = Vec::new();
        let mut vals: Vec<Vec<u8>> = Vec::new();
        let mut children: Vec<PageId> = Vec::new();
        let mut off: usize = NODE_HEAD;
        let mut i: usize = 0;
        assert(views(keys@) =~= Seq::<Seq<u8>>::empty());
        assert(views(vals@) =~= Seq::<Seq<u8>>::empty());
        assert(children@ =~= Seq::<u32>::empty());
        while i < count
            invariant
                page@.len() == PAGE_SIZE,
                i <= count,
                entries_read(page@, leaf, count as nat) is Some,
                entries_read(page@, leaf, i as nat) == Some(Parsed { off: off as int, keys: views(keys@), vals: views(vals@), children: children@ }),
                off <= PAGE_SIZE,
                keys@.len() == i,
                leaf ==> vals@.len() == i && children@.len() == 0,
                !leaf ==> children@.len() == i && vals@.len() == 0,
            decreases count - i,
        {
            proof {
                lemma_read_more(page@, leaf, (i + 1) as nat, count as nat);
            }
            let ghost p = Parsed { off: off as int, keys: views(keys@), vals: views(vals@), children: children@ };
            let ghost keys0 = keys@;
            let ghost vals0 = vals@;
            assert(next_entry(page@, leaf, p) is Some);
            let klen: usize = read_le16(page, off) as usize;
            let key: Vec<u8> = slice_copy(page, off + 2, off + 2 + klen);
            let ghost kv = key@;
            off = off + 2 + klen;
            keys.push(key);
            assert(views(keys@) =~= views(keys0).push(kv));
            if leaf {
                let vlen: usize = read_le16(page, off) as usize;
                let val: Vec<u8> = slice_copy(page, off + 2, off + 2 + vlen);
                let ghost vv = val@;
                off = off + 2 + vlen;
                vals.push(val);
                assert(views(vals@) =~= views(vals0).push(vv));
            } else {
                children.push(read_le32(page, off));
                off = off + 4;
            }
            i = i + 1;
        }
        Node { leaf, link, keys, vals, children }
    }
}

/// The bytes of an entry.
pub open spec fn entry_bytes(n: NodeSpec, i: int) -> Seq<u8> {
    if n.leaf {
        le16(n.keys[i].len() as u16) + n.keys[i] + le16(n.vals[i].len() as u16) + n.vals[i]
    } else {
        le16(n.keys[i].len() as u16) + n.keys[i] + le32(n.children[i])
    }
}

/// The first entries stand where they belong.
spec fn written(n: NodeSpec, b: Seq<u8>, k: nat) -> bool {
    forall|i: int| #![trigger entry_bytes(n, i)] 0 <= i < k ==> b.subrange(size_to(n, i as nat) as int, size_to(n, (i + 1) as nat) as int) == entry_bytes(n, i)
}

proof fn lemma_written(n: NodeSpec, b: Seq<u8>, k: nat)
    requires
        written(n, b, k),
        b.len() == size_to(n, k),
        k < n.keys.len(),
        shaped(n),
        entry_bytes(n, k as int).len() == entry_size(n, k as int),
    ensures
        written(n, b + entry_bytes(n, k as int), k + 1),
{
    let c = b + entry_bytes(n, k as int);
    assert forall|i: int| #![trigger entry_bytes(n, i)] 0 <= i < k + 1 implies c.subrange(size_to(n, i as nat) as int, size_to(n, (i + 1) as nat) as int) == entry_bytes(n, i) by {
        if i < k {
            lemma_size_bound(n, i as nat, (i + 1) as nat);
            lemma_size_bound(n, (i + 1) as nat, k);
            assert(c.subrange(size_to(n, i as nat) as int, size_to(n, (i + 1) as nat) as int) =~= b.subrange(size_to(n, i as nat) as int, size_to(n, (i + 1) as nat) as int));
        } else {
            assert(c.subrange(size_to(n, i as nat) as int, size_to(n, (i + 1) as nat) as int) =~= entry_bytes(n, i));
        }
    }
}

proof fn lemma_read_more(page: Seq<u8>, leaf: bool, i: nat, n: nat)
    requires
        i <= n,
        entries_read(page, leaf, n) is Some,
    ensures
        entries_read(page, leaf, i) is Some,
    decreases n,
{
    if i < n {
        lemma_read_more(page, leaf, i, (n - 1) as nat);
    }
}

#[verifier::spinoff_prover]
proof fn lemma_read_written(n: NodeSpec, b: Seq<u8>, page: Seq<u8>, k: nat)
    requires
        shaped(n),
        fits_page(n),
        b.len() == node_size(n),
        written(n, b, n.keys.len()),
        page.len() == PAGE_SIZE,
        page.take(b.len() as int) == b,
        k <= n.keys.len(),
    ensures
        entries_read(page, n.leaf, k) == Some(Parsed {
            off: size_to(n, k) as int,
            keys: n.keys.take(k as int),
            vals: if n.leaf { n.vals.take(k as int) } else { Seq::empty() },
            children: if n.leaf { Seq::empty() } else { n.children.take(k as int) },
        }),
    decreases k,
{
    if k == 0 {
        assert(n.keys.take(0) =~= Seq::<Seq<u8>>::empty());
        assert(n.leaf ==> n.vals.take(0) =~= Seq::<Seq<u8>>::empty());
        assert(!n.leaf ==> n.children.take(0) =~= Seq::<u32>::empty());
    } else {
        let j = (k - 1) as nat;
        lemma_read_written(n, b, page, j);
        lemma_size_bound(n, 0, j);
        lemma_size_bound(n, k, n.keys.len());
        let at = size_to(n, j) as int;
        let end = size_to(n, k) as int;
        let e = entry_bytes(n, j as int);
        let key = n.keys[j as int];
        assert(b.subrange(at, end) == entry_bytes(n, j as int));
        assert(page.subrange(at, end) =~= b.subrange(at, end)) by {
            assert(page.subrange(at, end) =~= page.take(b.len() as int).subrange(at, end));
        }
        let mid = at + 2 + key.len();
        assert(n.keys.take(k as int) =~= n.keys.take(j as int).push(key));
        if n.leaf {
            let val = n.vals[j as int];
            lemma_two_parts(page, at, le16(key.len() as u16) + key, le16(val.len() as u16) + val, e);
            lemma_string_at(page, at, key);
            lemma_string_at(page, mid, val);
            assert(n.vals.take(k as int) =~= n.vals.take(j as int).push(val));
        } else {
            let child = n.children[j as int];
            lemma_two_parts(page, at, le16(key.len() as u16) + key, le32(child), e);
            lemma_string_at(page, at, key);
            lemma_le32(child, page, mid);
            assert(n.children.take(k as int) =~= n.children.take(j as int).push(child));
        }
    }
}

proof fn lemma_two_parts(page: Seq<u8>, at: int, a: Seq<u8>, b: Seq<u8>, e: Seq<u8>)
    requires
        0 <= at,
        at + a.len() + b.len() <= page.len(),
        e =~= a + b,
        page.subrange(at, at + a.len() + b.len()) == e,
    ensures
        page.subrange(at, at + a.len()) == a,
        page.subrange(at + a.len(), at + a.len() + b.len()) == b,
{
    let s = page.subrange(at, at + a.len() + b.len());
    assert(page.subrange(at, at + a.len()) =~= s.take(a.len() as int));
    assert(s.take(a.len() as int) =~= a);
    assert(page.subrange(at + a.len(), at + a.len() + b.len()) =~= s.skip(a.len() as int));
    assert(s.skip(a.len() as int) =~= b);
}

proof fn lemma_string_at(page: Seq<u8>, at: int, s: Seq<u8>)
    requires
        0 <= at,
        at + 2 + s.len() <= page.len(),
        s.len() <= u16::MAX,
        page.subrange(at, at + 2 + s.len()) == le16(s.len() as u16) + s,
    ensures
        string_at(page, at) == Some(s),
{
    let e = le16(s.len() as u16) + s;
    lemma_two_parts(page, at, le16(s.len() as u16), s, e);
    lemma_le16(s.len() as u16, page, at);
}

} // verus!
