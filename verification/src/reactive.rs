//! Reactive JSON states: reads are recorded against the active effect, and
//! writes hand back the effects to run again.

use vstd::prelude::*;

use crate::addr::{AddrMap, NodeV, update_model, new_root_model, release_model, update_json_addr, drop_json_addr, extends, lemma_update_again, law_handle_stable, law_update_recorded};
use crate::effect::{Bucket, BucketV, Effect, track_model, start_model, finish_model, dependents, law_track_records};
use crate::path::{split_index, split_path, strings_view};
use crate::value::{Value, JValue, get_ok, get_path, set_ok, set_path, walk_path};
use crate::RJson;

verus! {

/// Everything that the states and effects of a program share: the node
/// handles and the record of dependencies.
pub struct Runtime {
    pub addrs: AddrMap,
    pub bucket: Bucket,
}

/// The model of a [`Runtime`].
pub struct RuntimeV {
    pub nodes: Seq<NodeV>,
    pub bucket: BucketV,
}

impl View for Runtime {
    type V = RuntimeV;

    open spec fn view(&self) -> RuntimeV {
        RuntimeV { nodes: self.addrs@, bucket: self.bucket@ }
    }
}

/// Reading the segments `segs` in turn from node `h`: each step asks for the
/// child's handle and records the active effect against the child and the
/// segment. Gives the runtime after, and the handle of the last node.
pub open spec fn read_model(m: RuntimeV, h: usize, segs: Seq<Seq<char>>) -> (RuntimeV, usize)
    decreases segs.len(),
{
    if segs.len() == 0 {
        (m, h)
    } else {
        let (nodes, c) = update_model(m.nodes, h, segs[0]);
        let m1 = RuntimeV { nodes, bucket: track_model(m.bucket, c, segs[0]) };
        read_model(m1, c, segs.drop_first())
    }
}

/// Writing at the end of `segs` from the root `root`: the segments but the
/// last are read as for writing, then the written slot gets its handle.
/// Gives the runtime after, and the handle of the written slot.
pub open spec fn write_model(m: RuntimeV, root: usize, segs: Seq<Seq<char>>) -> (RuntimeV, usize) {
    let (m1, h) = read_model(m, root, segs.drop_last());
    let (nodes, c) = update_model(m1.nodes, h, segs.last());
    (RuntimeV { nodes, ..m1 }, c)
}

impl Runtime {
    /// A runtime with no state, no effect, and nothing recorded.
    pub fn new() -> (r: Runtime)
        ensures
            r@.nodes == Seq::<NodeV>::empty(),
            r@.bucket.deps.len() == 0,
            r@.bucket.active is None,
            r@.bucket.effects.len() == 0,
    {
        Runtime { addrs: AddrMap::new(), bucket: Bucket::new() }
    }
}

/// A JSON state with its own root node.
pub struct Reactive {
    json: Value,
    root: usize,
}

/// The model of a [`Reactive`].
pub struct ReactiveV {
    pub json: JValue,
    pub root: usize,
}

impl View for Reactive {
    type V = ReactiveV;

    open spec fn view(&self) -> ReactiveV {
        ReactiveV { json: self.value()@, root: self.root_node() }
    }
}

impl Reactive {
    /// The state's value.
    pub closed spec fn value(&self) -> Value {
        self.json
    }

    /// The handle of the state's root node.
    pub closed spec fn root_node(&self) -> usize {
        self.root
    }

    /// A state holding `json`, with a new root node.
    pub fn new(rt: &mut Runtime, json: Value) -> (r: Reactive)
        ensures
            r@.json == json@,
            r@.root as int == old(rt)@.nodes.len(),
            final(rt)@ == (RuntimeV { nodes: new_root_model(old(rt)@.nodes), ..old(rt)@ }),
    {
        let root = rt.addrs.new_root();
        Reactive { json, root }
    }

    /// Lends the value to `cb`.
    pub fn lock<F: FnOnce(&Value)>(&self, cb: F)
        requires
            cb.requires((&self.value(),)),
        ensures
            cb.ensures((&self.value(),), ()),
    {
        cb(&self.json)
    }

    /// Hands the value to `cb` and keeps what `cb` gives back.
    pub fn lock_mut<F: FnOnce(Value) -> Value>(&mut self, cb: F)
        requires
            cb.requires((old(self).value(),)),
        ensures
            cb.ensures((old(self).value(),), final(self).value()),
            final(self)@.root == old(self)@.root,
    {
        let mut json = Value::Null;
        std::mem::swap(&mut json, &mut self.json);
        self.json = cb(json);
    }

    /// Follows `segs` from node `h`, recording each step against the active
    /// effect; gives the handle of the last node.
    fn track_path(rt: &mut Runtime, h: usize, segs: &Vec<String>, end: usize) -> (r: usize)
        requires
            end <= segs@.len(),
        ensures
            (final(rt)@, r) == read_model(old(rt)@, h, strings_view(segs@).take(end as int)),
    {
        let ghost all = strings_view(segs@).take(end as int);
        let mut cur = h;
        let mut i: usize = 0;
        proof {
            assert(all.skip(0) =~= all);
        }
        while i < end
            invariant
                i <= end <= segs@.len(),
                all == strings_view(segs@).take(end as int),
                read_model(old(rt)@, h, all) == read_model(rt@, cur, all.skip(i as int)),
            decreases end - i,
        {
            proof {
                assert(all.skip(i as int)[0] == segs@[i as int]@);
                assert(all.skip(i as int).drop_first() =~= all.skip(i + 1));
            }
            let seg = segs[i].as_str();
            let c = update_json_addr(&mut rt.addrs, cur, seg);
            Effect::track(&mut rt.bucket, c, seg);
            cur = c;
            i = i + 1;
        }
        proof {
            assert(all.skip(i as int) =~= Seq::<Seq<char>>::empty());
        }
        cur
    }

    /// The value at `index`; every node on the way is recorded as read by
    /// the active effect.
    pub fn pget(&self, rt: &mut Runtime, index: &str) -> (r: &Value)
        requires
            get_ok(self@.json, split_path(index@)),
        ensures
            r@ == get_path(self@.json, split_path(index@)),
            final(rt)@ == read_model(old(rt)@, self@.root, split_path(index@)).0,
    {
        let segs = split_index(index);
        let n = segs.len();
        proof {
            assert(strings_view(segs@).take(n as int) =~= strings_view(segs@));
        }
        Self::track_path(rt, self.root, &segs, n);
        self.json.pget(index)
    }

    /// The slot at `index`, for writing: missing keys on the way are made,
    /// and every node on the way is recorded as read by the active effect.
    pub fn pget_mut(&mut self, rt: &mut Runtime, index: &str) -> (r: &mut Value)
        requires
            set_ok(old(self)@.json, split_path(index@)),
        ensures
            r@ == walk_path(old(self)@.json, split_path(index@)),
            final(self)@.json == set_path(old(self)@.json, split_path(index@), final(r)@),
            final(self)@.root == old(self)@.root,
            final(rt)@ == read_model(old(rt)@, old(self)@.root, split_path(index@)).0,
    {
        let segs = split_index(index);
        let n = segs.len();
        proof {
            assert(strings_view(segs@).take(n as int) =~= strings_view(segs@));
        }
        Self::track_path(rt, self.root, &segs, n);
        self.json.pget_mut(index)
    }

    /// Writes `value` at `index`, and gives the effects that depend on the
    /// written slot, each once: those to run again. Each of them is live.
    pub fn pset(&mut self, rt: &mut Runtime, index: &str, value: Value) -> (r: Vec<usize>)
        requires
            set_ok(old(self)@.json, split_path(index@)),
        ensures
            final(self)@.json == set_path(old(self)@.json, split_path(index@), value@),
            final(self)@.root == old(self)@.root,
            final(rt)@ == write_model(old(rt)@, old(self)@.root, split_path(index@)).0,
            r@.to_set() == dependents(
                final(rt)@.bucket.deps,
                write_model(old(rt)@, old(self)@.root, split_path(index@)).1,
                split_path(index@).last(),
            ),
            r@.no_duplicates(),
            forall|i: int|
                0 <= i < r@.len() ==> (r@[i] as int) < final(rt)@.bucket.effects.len()
                    && final(rt)@.bucket.effects[r@[i] as int],
    {
        let segs = split_index(index);
        let n = segs.len();
        let ghost all = strings_view(segs@);
        proof {
            assert(all.take(n - 1) =~= all.drop_last());
        }
        let h = Self::track_path(rt, self.root, &segs, n - 1);
        let ghost mid = rt@.nodes;
        let last = segs[n - 1].as_str();
        let slot = update_json_addr(&mut rt.addrs, h, last);
        self.json.pset(index, value);
        let again = update_json_addr(&mut rt.addrs, h, last);
        proof {
            lemma_update_again(mid, h, last@);
        }
        Effect::trigger(&rt.bucket, again, last)
    }

    /// Like [`Reactive::pget`], or `None`, with nothing recorded, where
    /// reading `index` is not defined.
    pub fn try_pget(&self, rt: &mut Runtime, index: &str) -> (r: Option<&Value>)
        ensures
            r is Some <==> get_ok(self@.json, split_path(index@)),
            r matches Some(v) ==> v@ == get_path(self@.json, split_path(index@)) && final(rt)@
                == read_model(old(rt)@, self@.root, split_path(index@)).0,
            r is None ==> final(rt)@ == old(rt)@,
    {
        if self.json.readable(index) {
            Some(self.pget(rt, index))
        } else {
            None
        }
    }

    /// Like [`Reactive::pset`], or `None`, with nothing changed, where
    /// writing at `index` is not defined.
    pub fn try_pset(&mut self, rt: &mut Runtime, index: &str, value: Value) -> (r: Option<Vec<usize>>)
        ensures
            r is Some <==> set_ok(old(self)@.json, split_path(index@)),
            final(self)@.root == old(self)@.root,
            r matches Some(again) ==> {
                &&& final(self)@.json == set_path(old(self)@.json, split_path(index@), value@)
                &&& final(rt)@ == write_model(old(rt)@, old(self)@.root, split_path(index@)).0
                &&& again@.to_set() == dependents(
                    final(rt)@.bucket.deps,
                    write_model(old(rt)@, old(self)@.root, split_path(index@)).1,
                    split_path(index@).last(),
                )
                &&& again@.no_duplicates()
                &&& forall|i: int|
                    0 <= i < again@.len() ==> (again@[i] as int) < final(rt)@.bucket.effects.len()
                        && final(rt)@.bucket.effects[again@[i] as int]
            },
            r is None ==> final(self)@ == old(self)@ && final(rt)@ == old(rt)@,
    {
        if self.json.writable(index) {
            Some(self.pset(rt, index, value))
        } else {
            None
        }
    }

    /// Releases the state's nodes, as its drop does.
    pub fn release(self, rt: &mut Runtime)
        ensures
            final(rt)@ == (RuntimeV { nodes: release_model(old(rt)@.nodes, self@.root as int), ..old(rt)@ }),
    {
        drop_json_addr(&mut rt.addrs, self.root);
    }
}


/// `b` keeps every node of `a` and every dependency that `a` records.
pub open spec fn grows(a: RuntimeV, b: RuntimeV) -> bool {
    &&& extends(a.nodes, b.nodes)
    &&& forall|t: usize, k: Seq<char>|
        dependents(a.bucket.deps, t, k).subset_of(#[trigger] dependents(b.bucket.deps, t, k))
}

/// Reading never forgets a node or a dependency, and leaves the active
/// effect and the effects as they are.
proof fn lemma_read_grows(m: RuntimeV, h: usize, segs: Seq<Seq<char>>)
    ensures
        grows(m, read_model(m, h, segs).0),
        read_model(m, h, segs).0.bucket.active == m.bucket.active,
        read_model(m, h, segs).0.bucket.effects == m.bucket.effects,
    decreases segs.len(),
{
    if segs.len() > 0 {
        let (nodes, c) = update_model(m.nodes, h, segs[0]);
        let m1 = RuntimeV { nodes, bucket: track_model(m.bucket, c, segs[0]) };
        law_update_recorded(m.nodes, h, segs[0]);
        law_track_records(m.bucket, c, segs[0]);
        lemma_read_grows(m1, c, segs.drop_first());
        let m2 = read_model(m1, c, segs.drop_first()).0;
        assert forall|t: usize, k: Seq<char>|
            dependents(m.bucket.deps, t, k).subset_of(#[trigger] dependents(m2.bucket.deps, t, k)) by {
            assert(dependents(m.bucket.deps, t, k).subset_of(dependents(m1.bucket.deps, t, k)));
            assert(dependents(m1.bucket.deps, t, k).subset_of(dependents(m2.bucket.deps, t, k)));
        }
    }
}

/// A read done while `e` is active records `e` against the last node and
/// segment read.
#[verifier::spinoff_prover]
proof fn lemma_read_records_last(m: RuntimeV, h: usize, segs: Seq<Seq<char>>)
    requires
        segs.len() > 0,
        m.bucket.active is Some,
    ensures
        dependents(read_model(m, h, segs).0.bucket.deps, read_model(m, h, segs).1, segs.last()).contains(
            m.bucket.active->0,
        ),
    decreases segs.len(),
{
    let (nodes, c) = update_model(m.nodes, h, segs[0]);
    let m1 = RuntimeV { nodes, bucket: track_model(m.bucket, c, segs[0]) };
    law_track_records(m.bucket, c, segs[0]);
    if segs.len() == 1 {
        assert(segs.drop_first().len() == 0);
    } else {
        assert(segs.drop_first().last() == segs.last());
        lemma_read_records_last(m1, c, segs.drop_first());
    }
}

/// Reading a path and then one more segment.
proof fn lemma_read_snoc(m: RuntimeV, h: usize, prefix: Seq<Seq<char>>, x: Seq<char>)
    ensures
        read_model(m, h, prefix.push(x)) == ({
            let (m1, h1) = read_model(m, h, prefix);
            let (nodes, c) = update_model(m1.nodes, h1, x);
            (RuntimeV { nodes, bucket: track_model(m1.bucket, c, x) }, c)
        }),
    decreases prefix.len(),
{
    if prefix.len() == 0 {
        assert(prefix.push(x).drop_first() =~= Seq::<Seq<char>>::empty());
        reveal_with_fuel(read_model, 2);
    } else {
        assert(prefix.push(x).drop_first() =~= prefix.drop_first().push(x));
        assert(prefix.push(x)[0] == prefix[0]);
        let (nodes, c) = update_model(m.nodes, h, prefix[0]);
        let m1 = RuntimeV { nodes, bucket: track_model(m.bucket, c, prefix[0]) };
        lemma_read_snoc(m1, c, prefix.drop_first(), x);
    }
}

/// Reading again, from any runtime that keeps the nodes of an earlier read
/// of the same path, reaches the same node and makes no new one.
proof fn lemma_reread(m1: RuntimeV, h: usize, segs: Seq<Seq<char>>, m: RuntimeV)
    requires
        extends(read_model(m1, h, segs).0.nodes, m.nodes),
    ensures
        read_model(m, h, segs).1 == read_model(m1, h, segs).1,
        read_model(m, h, segs).0.nodes == m.nodes,
    decreases segs.len(),
{
    if segs.len() > 0 {
        let (n1, c) = update_model(m1.nodes, h, segs[0]);
        let m1b = RuntimeV { nodes: n1, bucket: track_model(m1.bucket, c, segs[0]) };
        law_update_recorded(m1.nodes, h, segs[0]);
        lemma_read_grows(m1b, c, segs.drop_first());
        let m2 = read_model(m1b, c, segs.drop_first()).0;
        assert(extends(n1, m.nodes)) by {
            assert forall|i: int| 0 <= i < n1.len() implies m.nodes[i] == n1[i] by {
                assert(m2.nodes[i] == n1[i]);
            }
        }
        law_handle_stable(n1, m.nodes, h, segs[0]);
        let mb = RuntimeV { nodes: m.nodes, bucket: track_model(m.bucket, c, segs[0]) };
        assert(update_model(m.nodes, h, segs[0]) == (m.nodes, c));
        lemma_reread(m1b, c, segs.drop_first(), mb);
    }
}

/// Law: once an effect has read a path while it was active, a later write
/// to that path, from the same root, hands the effect back to be run again,
/// whatever reads, writes and effects came between (anything that keeps the
/// nodes and dependencies, which all but dropping does).
pub proof fn law_write_reruns_reader(
    m1: RuntimeV,
    root: usize,
    segs: Seq<Seq<char>>,
    m3: RuntimeV,
)
    requires
        segs.len() > 0,
        m1.bucket.active is Some,
        grows(read_model(m1, root, segs).0, m3),
    ensures
        dependents(
            write_model(m3, root, segs).0.bucket.deps,
            write_model(m3, root, segs).1,
            segs.last(),
        ).contains(m1.bucket.active->0),
{
    let e = m1.bucket.active->0;
    let prefix = segs.drop_last();
    let last = segs.last();
    assert(segs =~= prefix.push(last));
    let (m2, c) = read_model(m1, root, segs);
    let (mp, hp) = read_model(m1, root, prefix);
    lemma_read_snoc(m1, root, prefix, last);
    let n = update_model(mp.nodes, hp, last).0;
    law_update_recorded(mp.nodes, hp, last);
    assert(m2.nodes == n);
    lemma_read_records_last(m1, root, segs);
    // The read of the prefix from m3 reaches the same node and changes no node.
    assert(extends(mp.nodes, m3.nodes)) by {
        assert forall|i: int| 0 <= i < mp.nodes.len() implies m3.nodes[i] == mp.nodes[i] by {
            assert(n[i] == mp.nodes[i]);
            assert(m3.nodes[i] == m2.nodes[i]);
        }
    }
    lemma_reread(m1, root, prefix, m3);
    let (ma, ha) = read_model(m3, root, prefix);
    assert(ha == hp);
    assert(ma.nodes == m3.nodes);
    law_handle_stable(n, m3.nodes, hp, last);
    assert(update_model(ma.nodes, ha, last).1 == c);
    lemma_read_grows(m3, root, prefix);
    assert(dependents(m2.bucket.deps, c, last).subset_of(dependents(m3.bucket.deps, c, last)));
    assert(dependents(m3.bucket.deps, c, last).subset_of(dependents(ma.bucket.deps, c, last)));
}

/// Law: reading, writing, making a state, and starting or finishing an
/// effect never lose a node or a dependency.
pub proof fn law_operations_grow(m: RuntimeV, root: usize, segs: Seq<Seq<char>>)
    ensures
        grows(m, read_model(m, root, segs).0),
        segs.len() > 0 ==> grows(m, write_model(m, root, segs).0),
        grows(m, RuntimeV { nodes: new_root_model(m.nodes), ..m }),
        grows(m, RuntimeV { bucket: start_model(m.bucket), ..m }),
        grows(m, RuntimeV { bucket: finish_model(m.bucket), ..m }),
{
    lemma_read_grows(m, root, segs);
    if segs.len() > 0 {
        let (m1, h) = read_model(m, root, segs.drop_last());
        lemma_read_grows(m, root, segs.drop_last());
        law_update_recorded(m1.nodes, h, segs.last());
        let w = write_model(m, root, segs).0;
        assert(extends(m.nodes, w.nodes)) by {
            assert forall|i: int| 0 <= i < m.nodes.len() implies w.nodes[i] == m.nodes[i] by {
                assert(m1.nodes[i] == m.nodes[i]);
            }
        }
        assert forall|t: usize, k: Seq<char>|
            dependents(m.bucket.deps, t, k).subset_of(#[trigger] dependents(w.bucket.deps, t, k)) by {
            assert(dependents(m.bucket.deps, t, k).subset_of(dependents(m1.bucket.deps, t, k)));
        }
    }
}


/// Reading a path and then more segments is reading the whole.
proof fn lemma_read_split(m: RuntimeV, h: usize, a: Seq<Seq<char>>, b: Seq<Seq<char>>)
    ensures
        read_model(m, h, a + b) == read_model(read_model(m, h, a).0, read_model(m, h, a).1, b),
    decreases a.len(),
{
    if a.len() == 0 {
        assert(a + b =~= b);
    } else {
        assert((a + b).drop_first() =~= a.drop_first() + b);
        assert((a + b)[0] == a[0]);
        let (nodes, c) = update_model(m.nodes, h, a[0]);
        let m1 = RuntimeV { nodes, bucket: track_model(m.bucket, c, a[0]) };
        lemma_read_split(m1, c, a.drop_first(), b);
    }
}

/// Law: with no effect active, reading and writing record nothing, so a
/// write hands back exactly the effects recorded against its slot before.
pub proof fn law_no_effect_records_nothing(m: RuntimeV, h: usize, segs: Seq<Seq<char>>)
    requires
        m.bucket.active is None,
    ensures
        read_model(m, h, segs).0.bucket == m.bucket,
        segs.len() > 0 ==> write_model(m, h, segs).0.bucket == m.bucket,
    decreases segs.len(),
{
    if segs.len() > 0 {
        let (nodes, c) = update_model(m.nodes, h, segs[0]);
        let m1 = RuntimeV { nodes, bucket: track_model(m.bucket, c, segs[0]) };
        law_no_effect_records_nothing(m1, c, segs.drop_first());
        law_no_effect_records_nothing(m, h, segs.drop_last());
    }
}

/// Law: a read done while an effect is active records the effect against
/// every step of the path: each node reached and the segment that reached it.
pub proof fn law_read_records_every_step(m: RuntimeV, h: usize, segs: Seq<Seq<char>>, i: int)
    requires
        m.bucket.active is Some,
        0 <= i < segs.len(),
    ensures
        dependents(
            read_model(m, h, segs).0.bucket.deps,
            read_model(m, h, segs.take(i + 1)).1,
            segs[i],
        ).contains(m.bucket.active->0),
{
    let a = segs.take(i + 1);
    let b = segs.skip(i + 1);
    assert(segs =~= a + b);
    lemma_read_split(m, h, a, b);
    assert(a.last() == segs[i]);
    lemma_read_records_last(m, h, a);
    let (ma, ha) = read_model(m, h, a);
    lemma_read_grows(ma, ha, b);
    assert(dependents(ma.bucket.deps, ha, segs[i]).subset_of(
        dependents(read_model(ma, ha, b).0.bucket.deps, ha, segs[i]),
    ));
}


/// Law: a write records exactly what a read of the path up to the parent of
/// the written slot records, and nothing for the written slot itself. So the
/// active effect is recorded against every step before the last, and an
/// effect that only wrote a slot does not depend on it.
pub proof fn law_write_records_prefix_only(m: RuntimeV, root: usize, segs: Seq<Seq<char>>)
    requires
        segs.len() > 0,
    ensures
        write_model(m, root, segs).0.bucket == read_model(m, root, segs.drop_last()).0.bucket,
        m.bucket.active is Some ==> forall|i: int|
            0 <= i < segs.len() - 1 ==> dependents(
                write_model(m, root, segs).0.bucket.deps,
                #[trigger] read_model(m, root, segs.take(i + 1)).1,
                segs[i],
            ).contains(m.bucket.active->0),
{
    let pre = segs.drop_last();
    if m.bucket.active is Some {
        assert forall|i: int| 0 <= i < segs.len() - 1 implies dependents(
            write_model(m, root, segs).0.bucket.deps,
            #[trigger] read_model(m, root, segs.take(i + 1)).1,
            segs[i],
        ).contains(m.bucket.active->0) by {
            law_read_records_every_step(m, root, pre, i);
            assert(pre.take(i + 1) =~= segs.take(i + 1));
            assert(pre[i] == segs[i]);
        }
    }
}

} // verus!
