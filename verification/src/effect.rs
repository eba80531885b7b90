//! Effects and the record of what they depend on.
//!
//! While an effect is being set up it is the active effect, and every node
//! and key read then is recorded as one of its dependencies. A write to a
//! node and key hands back the effects that depend on it, to be run again.

use vstd::prelude::*;

use crate::reactive::{Runtime, RuntimeV};

verus! {

/// The effects that depend on one node and key.
pub struct Dep {
    target: usize,
    key: String,
    effects: Vec<usize>,
}

/// The model of a [`Dep`].
pub struct DepV {
    pub target: usize,
    pub key: Seq<char>,
    pub effects: Seq<usize>,
}

/// The record of dependencies, the active effect, and which effects live.
pub struct Bucket {
    deps: Vec<Dep>,
    active: Option<usize>,
    effects: Vec<bool>,
}

/// The model of a [`Bucket`].
pub struct BucketV {
    pub deps: Seq<DepV>,
    pub active: Option<usize>,
    pub effects: Seq<bool>,
}

pub closed spec fn deps_view(deps: Seq<Dep>) -> Seq<DepV> {
    Seq::new(
        deps.len(),
        |i: int| DepV { target: deps[i].target, key: deps[i].key@, effects: deps[i].effects@ },
    )
}

/// The record is consistent: the active effect, and every effect recorded as
/// a dependent, is one that was made and has not been dropped.
pub open spec fn bucket_wf(b: BucketV) -> bool {
    &&& b.active matches Some(e) ==> (e as int) < b.effects.len() && b.effects[e as int]
    &&& forall|i: int, j: int|
        0 <= i < b.deps.len() && 0 <= j < b.deps[i].effects.len() ==> {
            let x = #[trigger] b.deps[i].effects[j];
            (x as int) < b.effects.len() && b.effects[x as int]
        }
}

impl View for Bucket {
    type V = BucketV;

    closed spec fn view(&self) -> BucketV {
        BucketV { deps: deps_view(self.deps@), active: self.active, effects: self.effects@ }
    }
}

/// The effects recorded as depending on node `t` and key `k`.
pub open spec fn dependents(deps: Seq<DepV>, t: usize, k: Seq<char>) -> Set<usize> {
    Set::new(
        |e: usize|
            exists|i: int|
                0 <= i < deps.len() && deps[i].target == t && deps[i].key == k
                    && (#[trigger] deps[i].effects).contains(e),
    )
}

/// `i` is the first record for node `t` and key `k`.
pub open spec fn first_dep_at(deps: Seq<DepV>, t: usize, k: Seq<char>, i: int) -> bool {
    &&& 0 <= i < deps.len()
    &&& deps[i].target == t
    &&& deps[i].key == k
    &&& forall|j: int| 0 <= j < i ==> !(#[trigger] deps[j].target == t && deps[j].key == k)
}

/// The first record for node `t` and key `k`, if there is one.
pub open spec fn find_dep(deps: Seq<DepV>, t: usize, k: Seq<char>) -> Option<int> {
    if exists|i: int| first_dep_at(deps, t, k, i) {
        Some(choose|i: int| first_dep_at(deps, t, k, i))
    } else {
        None
    }
}

/// The records once `e` is recorded as depending on node `t` and key `k`:
/// the first record for them gets `e`, if it lacks it, or a new record is
/// added at the end.
pub open spec fn track_deps_model(deps: Seq<DepV>, e: usize, t: usize, k: Seq<char>) -> Seq<DepV> {
    match find_dep(deps, t, k) {
        Some(i) => if deps[i].effects.contains(e) {
            deps
        } else {
            deps.update(i, DepV { effects: deps[i].effects.push(e), ..deps[i] })
        },
        None => deps.push(DepV { target: t, key: k, effects: seq![e] }),
    }
}

/// The record once node `t` and key `k` are read: the active effect, if
/// any, is added to their dependents.
pub open spec fn track_model(b: BucketV, t: usize, k: Seq<char>) -> BucketV {
    match b.active {
        None => b,
        Some(e) => BucketV { deps: track_deps_model(b.deps, e, t, k), ..b },
    }
}

/// The record with a new effect, which is live and active.
pub open spec fn start_model(b: BucketV) -> BucketV {
    BucketV { active: Some(b.effects.len() as usize), effects: b.effects.push(true), ..b }
}

/// The record with no active effect.
pub open spec fn finish_model(b: BucketV) -> BucketV {
    BucketV { active: None, ..b }
}

/// Whether a number is other than `e`.
pub open spec fn other_than(e: usize) -> spec_fn(usize) -> bool {
    |x: usize| x != e
}

/// The record once effect `e` is dropped: it depends on nothing any more,
/// no longer lives, and is not active.
pub open spec fn cleanup_model(b: BucketV, e: usize) -> BucketV {
    BucketV {
        deps: cleanup_deps_model(b.deps, e),
        effects: if e < b.effects.len() {
            b.effects.update(e as int, false)
        } else {
            b.effects
        },
        active: if b.active == Some(e) {
            None
        } else {
            b.active
        },
    }
}

proof fn lemma_first_dep(deps: Seq<DepV>, t: usize, k: Seq<char>, i: int)
    requires
        first_dep_at(deps, t, k, i),
    ensures
        find_dep(deps, t, k) == Some(i),
{
    let q = choose|j: int| first_dep_at(deps, t, k, j);
    assert(first_dep_at(deps, t, k, q));
    if q < i {
        assert(deps[q].target == t && deps[q].key == k);
    } else if i < q {
        assert(deps[i].target == t && deps[i].key == k);
    }
}

/// Whether `v` holds `x`.
fn holds(v: &Vec<usize>, x: usize) -> (r: bool)
    ensures
        r == v@.contains(x),
{
    let mut i: usize = 0;
    while i < v.len()
        invariant
            i <= v@.len(),
            forall|j: int| 0 <= j < i ==> v@[j] != x,
        decreases v@.len() - i,
    {
        if v[i] == x {
            return true;
        }
        i = i + 1;
    }
    false
}

/// `v` without the occurrences of `x`.
fn without(v: &Vec<usize>, x: usize) -> (r: Vec<usize>)
    ensures
        r@ == v@.filter(other_than(x)),
{
    let mut r: Vec<usize> = Vec::new();
    let mut i: usize = 0;
    while i < v.len()
        invariant
            i <= v@.len(),
            r@ == v@.take(i as int).filter(other_than(x)),
        decreases v@.len() - i,
    {
        proof {
            reveal_with_fuel(Seq::filter, 1);
            assert(v@.take(i + 1).drop_last() =~= v@.take(i as int));
        }
        if v[i] != x {
            r.push(v[i]);
        }
        i = i + 1;
    }
    proof {
        assert(v@.take(v@.len() as int) =~= v@);
    }
    r
}

/// Records `active` as depending on node `target` and key `key`.
fn track_deps(deps: &mut Vec<Dep>, active: usize, target: usize, key: &str)
    ensures
        deps_view(final(deps)@) == track_deps_model(deps_view(old(deps)@), active, target, key@),
{
    let ghost d = deps_view(deps@);
    let k = key.to_owned();
    let mut i: usize = 0;
    while i < deps.len()
        invariant
            d == deps_view(deps@),
            d == deps_view(old(deps)@),
            k@ == key@,
            i <= deps@.len(),
            forall|j: int| 0 <= j < i ==> !(#[trigger] d[j].target == target && d[j].key == key@),
        decreases deps@.len() - i,
    {
        proof {
            assert(d[i as int] == deps_view(deps@)[i as int]);
        }
        if deps[i].target == target && deps[i].key == k {
            proof {
                lemma_first_dep(d, target, key@, i as int);
            }
            if !holds(&deps[i].effects, active) {
                let mut effects = deps[i].effects.clone();
                proof {
                    assert(effects@ =~= d[i as int].effects);
                }
                effects.push(active);
                let dep = Dep { target, key: k, effects };
                deps.set(i, dep);
                proof {
                    assert(deps_view(deps@) =~= d.update(
                        i as int,
                        DepV { effects: d[i as int].effects.push(active), ..d[i as int] },
                    ));
                }
            }
            return ;
        }
        i = i + 1;
    }
    let mut effects: Vec<usize> = Vec::new();
    effects.push(active);
    deps.push(Dep { target, key: k, effects });
    proof {
        assert(deps_view(deps@) =~= d.push(DepV { target, key: key@, effects: seq![active] }));
    }
}

/// What `track_deps_model` records is what was recorded, and `e`.
proof fn lemma_track_deps_recorded(d: Seq<DepV>, e: usize, t: usize, k: Seq<char>)
    ensures
        forall|i: int, j: int|
            0 <= i < track_deps_model(d, e, t, k).len() && 0 <= j < track_deps_model(d, e, t, k)[i].effects.len()
                ==> {
                let x = #[trigger] track_deps_model(d, e, t, k)[i].effects[j];
                x == e || (0 <= i < d.len() && 0 <= j < d[i].effects.len() && x == d[i].effects[j])
            },
{
    let r = track_deps_model(d, e, t, k);
    match find_dep(d, t, k) {
        Some(p) => {
            let q = choose|j: int| first_dep_at(d, t, k, j);
            assert(first_dep_at(d, t, k, q));
            assert forall|i: int, j: int| 0 <= i < r.len() && 0 <= j < r[i].effects.len() implies {
                let x = #[trigger] r[i].effects[j];
                x == e || (0 <= i < d.len() && 0 <= j < d[i].effects.len() && x == d[i].effects[j])
            } by {
                if i == p && !d[p].effects.contains(e) && j < d[i].effects.len() {
                    assert(r[i].effects[j] == d[i].effects[j]);
                }
            }
        },
        None => {
            assert forall|i: int, j: int| 0 <= i < r.len() && 0 <= j < r[i].effects.len() implies {
                let x = #[trigger] r[i].effects[j];
                x == e || (0 <= i < d.len() && 0 <= j < d[i].effects.len() && x == d[i].effects[j])
            } by {
                if i < d.len() {
                    assert(r[i] == d[i]);
                }
            }
        },
    }
}

impl Bucket {
    #[verifier::type_invariant]
    closed spec fn inv(self) -> bool {
        bucket_wf(self@)
    }

    /// An empty record, with no effect and none active.
    pub fn new() -> (r: Bucket)
        ensures
            r@.deps == Seq::<DepV>::empty(),
            r@.active is None,
            r@.effects == Seq::<bool>::empty(),
    {
        let r = Bucket { deps: Vec::new(), active: None, effects: Vec::new() };
        assert(deps_view(r.deps@) =~= Seq::<DepV>::empty());
        r
    }

    /// The active effect, if any.
    pub fn active(&self) -> (r: Option<usize>)
        ensures
            r == self@.active,
    {
        self.active
    }
}

/// An effect, named by its number in the [`Bucket`]. Two effects are equal
/// when they have the same number.
#[derive(Debug, PartialEq, Eq, Structural, Hash)]
pub struct Effect {
    id: usize,
}

impl Effect {
    /// The effect's number.
    pub closed spec fn spec_id(&self) -> usize {
        self.id
    }

    /// The effect's number.
    pub fn id(&self) -> (r: usize)
        ensures
            r == self.spec_id(),
    {
        self.id
    }

    /// Records the active effect, if any, as depending on node `target` and
    /// key `key`.
    pub fn track(bucket: &mut Bucket, target: usize, key: &str)
        ensures
            final(bucket)@ == track_model(old(bucket)@, target, key@),
            bucket_wf(final(bucket)@),
    {
        proof {
            use_type_invariant(&*bucket);
        }
        let active = match bucket.active {
            None => {
                return ;
            },
            Some(e) => e,
        };
        let mut taken = Bucket::new();
        std::mem::swap(&mut taken, bucket);
        let Bucket { mut deps, active: a, effects } = taken;
        track_deps(&mut deps, active, target, key);
        proof {
            lemma_track_deps_recorded(old(bucket)@.deps, active, target, key@);
        }
        *bucket = Bucket { deps, active: a, effects };
    }

    /// The effects that depend on node `target` and key `key`, each once,
    /// in no particular order: those that a write there runs again.
    pub fn trigger(bucket: &Bucket, target: usize, key: &str) -> (r: Vec<usize>)
        ensures
            r@.to_set() == dependents(bucket@.deps, target, key@),
            r@.no_duplicates(),
            forall|i: int|
                0 <= i < r@.len() ==> (r@[i] as int) < bucket@.effects.len() && bucket@.effects[r@[i] as int],
            bucket_wf(bucket@),
    {
        proof {
            use_type_invariant(bucket);
        }
        let ghost b = bucket@;
        let k = key.to_owned();
        let mut r: Vec<usize> = Vec::new();
        let mut i: usize = 0;
        while i < bucket.deps.len()
            invariant
                b == bucket@,
                b.deps == deps_view(bucket.deps@),
                k@ == key@,
                i <= bucket.deps@.len(),
                r@.no_duplicates(),
                r@.to_set() == dependents(b.deps.take(i as int), target, key@),
            decreases bucket.deps@.len() - i,
        {
            proof {
                assert(b.deps[i as int] == deps_view(bucket.deps@)[i as int]);
            }
            let ghost before = r@;
            if bucket.deps[i].target == target && bucket.deps[i].key == k {
                let effects = &bucket.deps[i].effects;
                let mut j: usize = 0;
                while j < effects.len()
                    invariant
                        j <= effects@.len(),
                        r@.no_duplicates(),
                        r@.to_set() == before.to_set() + effects@.take(j as int).to_set(),
                    decreases effects@.len() - j,
                {
                    proof {
                        assert(effects@.take(j + 1) =~= effects@.take(j as int).push(effects@[j as int]));
                        effects@.take(j as int).lemma_push_to_set_commute(effects@[j as int]);
                    }
                    if !holds(&r, effects[j]) {
                        let ghost rb = r@;
                        r.push(effects[j]);
                        proof {
                            rb.lemma_push_to_set_commute(effects@[j as int]);
                        }
                    }
                    j = j + 1;
                }
                proof {
                    assert(effects@.take(effects@.len() as int) =~= effects@);
                    assert(r@.to_set() =~= dependents(b.deps.take(i + 1), target, key@)) by {
                        assert forall|e: usize| #[trigger] r@.to_set().contains(e) implies dependents(b.deps.take(i + 1), target, key@).contains(e) by {
                            if before.to_set().contains(e) {
                                let w = choose|w: int| 0 <= w < b.deps.take(i as int).len() && b.deps.take(i as int)[w].target == target && b.deps.take(i as int)[w].key == key@ && (#[trigger] b.deps.take(i as int)[w].effects).contains(e);
                                assert(b.deps.take(i + 1)[w] == b.deps.take(i as int)[w]);
                            } else {
                                assert(effects@.contains(e));
                                assert(b.deps.take(i + 1)[i as int] == b.deps[i as int]);
                                assert(b.deps.take(i + 1)[i as int].effects.contains(e));
                            }
                        }
                        assert forall|e: usize| dependents(b.deps.take(i + 1), target, key@).contains(e) implies #[trigger] r@.to_set().contains(e) by {
                            let w = choose|w: int| 0 <= w < b.deps.take(i + 1).len() && b.deps.take(i + 1)[w].target == target && b.deps.take(i + 1)[w].key == key@ && (#[trigger] b.deps.take(i + 1)[w].effects).contains(e);
                            if w < i {
                                assert(b.deps.take(i as int)[w] == b.deps.take(i + 1)[w]);
                                assert(dependents(b.deps.take(i as int), target, key@).contains(e));
                            }
                        }
                    }
                }
            } else {
                proof {
                    assert(dependents(b.deps.take(i + 1), target, key@) =~= dependents(b.deps.take(i as int), target, key@)) by {
                        assert forall|e: usize| dependents(b.deps.take(i + 1), target, key@).contains(e) implies dependents(b.deps.take(i as int), target, key@).contains(e) by {
                            let w = choose|w: int| 0 <= w < b.deps.take(i + 1).len() && b.deps.take(i + 1)[w].target == target && b.deps.take(i + 1)[w].key == key@ && (#[trigger] b.deps.take(i + 1)[w].effects).contains(e);
                            assert(b.deps.take(i as int)[w] == b.deps.take(i + 1)[w]);
                        }
                        assert forall|e: usize| dependents(b.deps.take(i as int), target, key@).contains(e) implies dependents(b.deps.take(i + 1), target, key@).contains(e) by {
                            let w = choose|w: int| 0 <= w < b.deps.take(i as int).len() && b.deps.take(i as int)[w].target == target && b.deps.take(i as int)[w].key == key@ && (#[trigger] b.deps.take(i as int)[w].effects).contains(e);
                            assert(b.deps.take(i as int)[w] == b.deps.take(i + 1)[w]);
                        }
                    }
                }
            }
            i = i + 1;
        }
        proof {
            assert(b.deps.take(b.deps.len() as int) =~= b.deps);
            assert forall|i: int| 0 <= i < r@.len() implies (r@[i] as int) < b.effects.len() && b.effects[r@[i] as int] by {
                assert(r@.to_set().contains(r@[i]));
                let w = choose|w: int| 0 <= w < b.deps.len() && b.deps[w].target == target && b.deps[w].key == key@ && (#[trigger] b.deps[w].effects).contains(r@[i]);
                let j = b.deps[w].effects.index_of(r@[i]);
                assert(b.deps[w].effects[j] == r@[i]);
            }
        }
        r
    }

    /// The first half of making an effect: makes a new effect, which depends
    /// on nothing yet, and makes it the active one, so that what is read from
    /// now until [`Effect::finish`] is recorded as its dependencies.
    pub fn start(bucket: &mut Bucket) -> (r: Effect)
        ensures
            final(bucket)@ == start_model(old(bucket)@),
            r.spec_id() as int == old(bucket)@.effects.len(),
            bucket_wf(final(bucket)@),
            forall|t: usize, k: Seq<char>| !(#[trigger] dependents(final(bucket)@.deps, t, k)).contains(r.spec_id()),
    {
        let n = bucket.effects.len();
        proof {
            use_type_invariant(&*bucket);
            law_new_effect_depends_on_nothing(bucket@);
        }
        let mut taken = Bucket::new();
        std::mem::swap(&mut taken, bucket);
        let Bucket { deps, active: _, mut effects } = taken;
        let id = effects.len();
        effects.push(true);
        proof {
            let b = old(bucket)@;
            assert forall|i: int, j: int|
                0 <= i < b.deps.len() && 0 <= j < b.deps[i].effects.len() implies {
                    let x = #[trigger] b.deps[i].effects[j];
                    (x as int) < effects@.len() && effects@[x as int]
                } by {
                let x = b.deps[i].effects[j];
                assert(effects@[x as int] == b.effects[x as int]);
            }
        }
        *bucket = Bucket { deps, active: Some(id), effects };
        Effect { id }
    }

    /// The second half of making an effect: nothing is active any more.
    pub fn finish(&self, bucket: &mut Bucket)
        ensures
            final(bucket)@ == finish_model(old(bucket)@),
            bucket_wf(final(bucket)@),
    {
        proof {
            use_type_invariant(&*bucket);
        }
        bucket.active = None;
    }

    /// Makes an effect, as `effect` does: the effect is made and made active,
    /// `setup` runs once with the runtime, so that what it reads is recorded
    /// as the effect's dependencies, and then no effect is active. The
    /// runtime after is what `setup` made of the runtime with the new effect
    /// started, with the effect finished.
    pub fn new<F: FnOnce(&mut Runtime)>(rt: &mut Runtime, setup: F) -> (r: Effect)
        requires
            forall|m: &mut Runtime| setup.requires((m,)),
        ensures
            r.spec_id() as int == old(rt)@.bucket.effects.len(),
            final(rt)@.bucket.active is None,
            bucket_wf(final(rt)@.bucket),
            exists|m: &mut Runtime|
                (*m)@ == (RuntimeV { bucket: start_model(old(rt)@.bucket), ..old(rt)@ })
                    && #[trigger] setup.ensures((m,), ())
                    && final(rt)@ == (RuntimeV { bucket: finish_model((*final(m))@.bucket), ..(*final(m))@ }),
    {
        let e = Effect::start(&mut rt.bucket);
        setup(rt);
        e.finish(&mut rt.bucket);
        e
    }

    /// Removes this effect from every dependency, as its drop does.
    pub fn cleanup(&self, bucket: &mut Bucket)
        ensures
            final(bucket)@ == cleanup_model(old(bucket)@, self.spec_id()),
            bucket_wf(final(bucket)@),
    {
        proof {
            use_type_invariant(&*bucket);
        }
        let e = self.id;
        let mut taken = Bucket::new();
        std::mem::swap(&mut taken, bucket);
        let Bucket { mut deps, active, mut effects } = taken;
        let ghost b = old(bucket)@;
        cleanup_deps(&mut deps, e);
        if e < effects.len() {
            effects.set(e, false);
        }
        let active = match active {
            Some(a) => if a == e {
                None
            } else {
                Some(a)
            },
            None => None,
        };
        proof {
            let d = deps_view(deps@);
            assert forall|i: int, j: int|
                0 <= i < d.len() && 0 <= j < d[i].effects.len() implies {
                    let x = #[trigger] d[i].effects[j];
                    (x as int) < effects@.len() && effects@[x as int]
                } by {
                let f = b.deps[i].effects.filter(other_than(e));
                assert(d[i].effects == f);
                b.deps[i].effects.lemma_filter_pred(other_than(e), j);
                b.deps[i].effects.lemma_filter_contains_rev(other_than(e), f[j]);
                let x = f[j];
                let w = b.deps[i].effects.index_of(x);
                assert(b.deps[i].effects[w] == x);
            }
        }
        *bucket = Bucket { deps, active, effects };
        proof {
            assert(bucket@.effects =~= cleanup_model(b, e).effects);
        }
    }
}

/// The records with `e` removed from each.
pub open spec fn cleanup_deps_model(deps: Seq<DepV>, e: usize) -> Seq<DepV> {
    Seq::new(deps.len(), |i: int| DepV { effects: deps[i].effects.filter(other_than(e)), ..deps[i] })
}

/// Removes `e` from every record.
fn cleanup_deps(deps: &mut Vec<Dep>, e: usize)
    ensures
        deps_view(final(deps)@) == cleanup_deps_model(deps_view(old(deps)@), e),
{
    let ghost d = deps_view(deps@);
    let n = deps.len();
    let mut i: usize = 0;
    while i < n
        invariant
            n == deps@.len(),
            n == d.len(),
            d == deps_view(old(deps)@),
            i <= n,
            forall|j: int|
                0 <= j < n ==> #[trigger] deps_view(deps@)[j] == (if j < i {
                    DepV { effects: d[j].effects.filter(other_than(e)), ..d[j] }
                } else {
                    d[j]
                }),
        decreases n - i,
    {
        let ghost before = deps@;
        proof {
            assert(deps_view(before)[i as int] == d[i as int]);
        }
        let kept = without(&deps[i].effects, e);
        let dep = Dep { target: deps[i].target, key: deps[i].key.clone(), effects: kept };
        deps.set(i, dep);
        proof {
            assert forall|j: int| 0 <= j < n implies #[trigger] deps_view(deps@)[j] == (if j < i + 1 {
                DepV { effects: d[j].effects.filter(other_than(e)), ..d[j] }
            } else {
                d[j]
            }) by {
                if j != i {
                    assert(deps@[j] == before[j]);
                    assert(deps_view(before)[j] == (if j < i {
                        DepV { effects: d[j].effects.filter(other_than(e)), ..d[j] }
                    } else {
                        d[j]
                    }));
                }
            }
        }
        i = i + 1;
    }
    proof {
        assert(deps_view(deps@) =~= cleanup_deps_model(d, e));
    }
}

/// Law: recording a read never forgets a dependency, and records the active
/// effect against the node and key read.
pub proof fn law_track_records(b: BucketV, t: usize, k: Seq<char>)
    ensures
        track_model(b, t, k).active == b.active,
        track_model(b, t, k).effects == b.effects,
        forall|t2: usize, k2: Seq<char>|
            dependents(b.deps, t2, k2).subset_of(#[trigger] dependents(track_model(b, t, k).deps, t2, k2)),
        b.active is Some ==> dependents(track_model(b, t, k).deps, t, k).contains(b.active->0),
{
    let b1 = track_model(b, t, k);
    match b.active {
        None => {},
        Some(e) => {
            match find_dep(b.deps, t, k) {
                Some(i) => {
                    let q = choose|j: int| first_dep_at(b.deps, t, k, j);
                    assert(first_dep_at(b.deps, t, k, q));
                    if !b.deps[i].effects.contains(e) {
                        assert forall|t2: usize, k2: Seq<char>|
                            dependents(b.deps, t2, k2).subset_of(#[trigger] dependents(b1.deps, t2, k2)) by {
                            assert forall|x: usize| dependents(b.deps, t2, k2).contains(x) implies dependents(b1.deps, t2, k2).contains(x) by {
                                let w = choose|w: int| 0 <= w < b.deps.len() && b.deps[w].target == t2 && b.deps[w].key == k2 && (#[trigger] b.deps[w].effects).contains(x);
                                if w == i {
                                    assert(b1.deps[w].effects == b.deps[w].effects.push(e));
                                    assert(b.deps[w].effects.push(e)[b.deps[w].effects.index_of(x)] == x);
                                    assert(b1.deps[w].effects.contains(x));
                                } else {
                                    assert(b1.deps[w] == b.deps[w]);
                                }
                            }
                        }
                        assert(b1.deps[i].effects[b.deps[i].effects.len() as int] == e);
                        assert(b1.deps[i].effects.contains(e));
                    }
                },
                None => {
                    assert forall|t2: usize, k2: Seq<char>|
                        dependents(b.deps, t2, k2).subset_of(#[trigger] dependents(b1.deps, t2, k2)) by {
                        assert forall|x: usize| dependents(b.deps, t2, k2).contains(x) implies dependents(b1.deps, t2, k2).contains(x) by {
                            let w = choose|w: int| 0 <= w < b.deps.len() && b.deps[w].target == t2 && b.deps[w].key == k2 && (#[trigger] b.deps[w].effects).contains(x);
                            assert(b1.deps[w] == b.deps[w]);
                        }
                    }
                    let n = b.deps.len() as int;
                    assert(b1.deps[n].effects[0] == e);
                    assert(b1.deps[n].effects.contains(e));
                },
            }
        },
    }
}

/// Law: once an effect is dropped, no node and key has it as a dependent;
/// the other dependents stay.
pub proof fn law_cleanup_forgets(b: BucketV, e: usize, t: usize, k: Seq<char>)
    ensures
        dependents(cleanup_model(b, e).deps, t, k) == dependents(b.deps, t, k).remove(e),
{
    let b1 = cleanup_model(b, e);
    assert forall|x: usize| dependents(b1.deps, t, k).contains(x) implies dependents(b.deps, t, k).remove(e).contains(x) by {
        let w = choose|w: int| 0 <= w < b1.deps.len() && b1.deps[w].target == t && b1.deps[w].key == k && (#[trigger] b1.deps[w].effects).contains(x);
        let f = b.deps[w].effects.filter(other_than(e));
        assert(b1.deps[w].effects == f);
        let i = f.index_of(x);
        b.deps[w].effects.lemma_filter_pred(other_than(e), i);
        b.deps[w].effects.lemma_filter_contains_rev(other_than(e), x);
    }
    assert forall|x: usize| dependents(b.deps, t, k).remove(e).contains(x) implies dependents(b1.deps, t, k).contains(x) by {
        let w = choose|w: int| 0 <= w < b.deps.len() && b.deps[w].target == t && b.deps[w].key == k && (#[trigger] b.deps[w].effects).contains(x);
        let i = b.deps[w].effects.index_of(x);
        b.deps[w].effects.lemma_filter_contains(other_than(e), i);
        assert(b1.deps[w].effects.contains(x));
    }
    assert(dependents(b1.deps, t, k) =~= dependents(b.deps, t, k).remove(e));
}


/// Law: in a consistent record, a new effect depends on nothing.
pub proof fn law_new_effect_depends_on_nothing(b: BucketV)
    requires
        bucket_wf(b),
        b.effects.len() <= usize::MAX,
    ensures
        forall|t: usize, k: Seq<char>|
            !(#[trigger] dependents(start_model(b).deps, t, k)).contains(b.effects.len() as usize),
{
    assert forall|t: usize, k: Seq<char>| !(#[trigger] dependents(start_model(b).deps, t, k)).contains(b.effects.len() as usize) by {
        if dependents(b.deps, t, k).contains(b.effects.len() as usize) {
            let x = b.effects.len() as usize;
            let w = choose|w: int| 0 <= w < b.deps.len() && b.deps[w].target == t && b.deps[w].key == k && (#[trigger] b.deps[w].effects).contains(x);
            let j = b.deps[w].effects.index_of(x);
            assert(b.deps[w].effects[j] == x);
        }
    }
}


/// A matching record at `j` means there is a first one, no later than `j`.
proof fn lemma_find_dep_exists(deps: Seq<DepV>, t: usize, k: Seq<char>, j: int)
    requires
        0 <= j < deps.len(),
        deps[j].target == t && deps[j].key == k,
    ensures
        find_dep(deps, t, k) is Some,
        first_dep_at(deps, t, k, find_dep(deps, t, k)->0),
    decreases j,
{
    if forall|i: int| 0 <= i < j ==> !(#[trigger] deps[i].target == t && deps[i].key == k) {
        lemma_first_dep(deps, t, k, j);
    } else {
        let i = choose|i: int| 0 <= i < j && (#[trigger] deps[i].target == t && deps[i].key == k);
        lemma_find_dep_exists(deps, t, k, i);
    }
}

/// Law: recording the same read twice is recording it once.
pub proof fn law_track_twice(b: BucketV, t: usize, k: Seq<char>)
    ensures
        track_model(track_model(b, t, k), t, k) == track_model(b, t, k),
{
    if let Some(e) = b.active {
        let d = b.deps;
        let d1 = track_deps_model(d, e, t, k);
        match find_dep(d, t, k) {
            Some(i) => {
                let q = choose|j: int| first_dep_at(d, t, k, j);
                assert(first_dep_at(d, t, k, q));
                if !d[i].effects.contains(e) {
                    assert forall|j: int| 0 <= j < i implies !(#[trigger] d1[j].target == t && d1[j].key == k) by {
                        assert(d1[j] == d[j]);
                    }
                    lemma_first_dep(d1, t, k, i);
                    assert(d1[i].effects[d[i].effects.len() as int] == e);
                    assert(d1[i].effects.contains(e));
                }
            },
            None => {
                let n = d.len() as int;
                assert forall|j: int| 0 <= j < n implies !(#[trigger] d1[j].target == t && d1[j].key == k) by {
                    assert(d1[j] == d[j]);
                    if d[j].target == t && d[j].key == k {
                        lemma_find_dep_exists(d, t, k, j);
                    }
                }
                lemma_first_dep(d1, t, k, n);
                assert(d1[n].effects[0] == e);
                assert(d1[n].effects.contains(e));
            },
        }
    }
}

/// Law: recording a read adds the active effect to the dependents of the
/// node and key read, and changes nothing else.
pub proof fn law_track_adds_only_active(b: BucketV, t: usize, k: Seq<char>, t2: usize, k2: Seq<char>)
    ensures
        dependents(track_model(b, t, k).deps, t2, k2) == (if b.active is Some && t2 == t && k2 == k {
            dependents(b.deps, t2, k2).insert(b.active->0)
        } else {
            dependents(b.deps, t2, k2)
        }),
{
    law_track_records(b, t, k);
    let n = track_model(b, t, k).deps;
    let expected = if b.active is Some && t2 == t && k2 == k {
        dependents(b.deps, t2, k2).insert(b.active->0)
    } else {
        dependents(b.deps, t2, k2)
    };
    assert forall|x: usize| dependents(n, t2, k2).contains(x) implies expected.contains(x) by {
        let w = choose|w: int| 0 <= w < n.len() && n[w].target == t2 && n[w].key == k2 && (#[trigger] n[w].effects).contains(x);
        if let Some(e) = b.active {
            let d = b.deps;
            match find_dep(d, t, k) {
                Some(i) => {
                    let q = choose|j: int| first_dep_at(d, t, k, j);
                    assert(first_dep_at(d, t, k, q));
                    if w == i && !d[i].effects.contains(e) {
                        let j = n[w].effects.index_of(x);
                        if j < d[w].effects.len() {
                            assert(n[w].effects[j] == d[w].effects[j]);
                            assert(d[w].effects.contains(x));
                        }
                    } else {
                        assert(n[w] == d[w]);
                    }
                },
                None => {
                    if w < d.len() {
                        assert(n[w] == d[w]);
                    } else {
                        assert(n[w].effects == seq![e]);
                        assert(n[w].effects[0] == e);
                    }
                },
            }
        }
    }
    assert(dependents(n, t2, k2) =~= expected);
}


/// Law: a dropped effect stays dropped: making, finishing and dropping
/// effects and recording reads never make it live again, and a consistent
/// record never hands back an effect that is not live.
pub proof fn law_dropped_effect_stays_dropped(b: BucketV, e: usize, e2: usize, t: usize, k: Seq<char>)
    requires
        (e as int) < b.effects.len(),
        !b.effects[e as int],
    ensures
        !start_model(b).effects[e as int],
        !finish_model(b).effects[e as int],
        !track_model(b, t, k).effects[e as int],
        !cleanup_model(b, e2).effects[e as int],
        bucket_wf(b) ==> !dependents(b.deps, t, k).contains(e),
{
    if bucket_wf(b) && dependents(b.deps, t, k).contains(e) {
        let w = choose|w: int| 0 <= w < b.deps.len() && b.deps[w].target == t && b.deps[w].key == k && (#[trigger] b.deps[w].effects).contains(e);
        let j = b.deps[w].effects.index_of(e);
        assert(b.deps[w].effects[j] == e);
    }
}


/// Law: dropping an effect other than the active one leaves the active
/// effect as it is, so what is read next is still recorded against it;
/// dropping the active effect leaves none active.
pub proof fn law_cleanup_keeps_other_active(b: BucketV, e: usize, t: usize, k: Seq<char>)
    ensures
        b.active != Some(e) ==> cleanup_model(b, e).active == b.active,
        b.active == Some(e) ==> cleanup_model(b, e).active is None,
        b.active is Some && b.active != Some(e) ==> dependents(
            track_model(cleanup_model(b, e), t, k).deps,
            t,
            k,
        ).contains(b.active->0),
{
    law_track_records(cleanup_model(b, e), t, k);
}

} // verus!
