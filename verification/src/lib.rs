//! A JSON state whose readers are tracked by path, so that a write re-runs the
//! effects that read what it changed.

pub mod addr;
pub mod effect;
pub mod path;
pub mod reactive;
pub mod value;

use vstd::prelude::*;

pub use effect::{Bucket, Effect};
pub use reactive::{Reactive, Runtime};
pub use value::Value;

verus! {

/// A new state holding `json`, with its own root node in `rt`.
pub fn reactive(rt: &mut Runtime, json: Value) -> (r: Reactive)
    ensures
        r@.json == json@,
        r@.root as int == old(rt)@.nodes.len(),
        final(rt)@ == (reactive::RuntimeV { nodes: addr::new_root_model(old(rt)@.nodes), ..old(rt)@ }),
{
    Reactive::new(rt, json)
}

/// A new effect: `setup` runs once with `rt` while the effect is active, so
/// that what it reads is recorded as the effect's dependencies; afterwards no
/// effect is active, and the runtime is what `setup` made of the runtime with
/// the new effect started, with the effect finished.
pub fn effect<F: FnOnce(&mut Runtime)>(rt: &mut Runtime, setup: F) -> (r: Effect)
    requires
        forall|m: &mut Runtime| setup.requires((m,)),
    ensures
        r.spec_id() as int == old(rt)@.bucket.effects.len(),
        final(rt)@.bucket.active is None,
        effect::bucket_wf(final(rt)@.bucket),
        exists|m: &mut Runtime|
            (*m)@ == (reactive::RuntimeV { bucket: effect::start_model(old(rt)@.bucket), ..old(rt)@ })
                && #[trigger] setup.ensures((m,), ())
                && final(rt)@ == (reactive::RuntimeV {
                    bucket: effect::finish_model((*final(m))@.bucket),
                    ..(*final(m))@
                }),
{
    Effect::new(rt, setup)
}

/// Reading and writing a JSON value along dotted paths such as
/// `"phones.1"`: each segment names a key of an object, or, where the value
/// is an array and the segment is a number, a position.
pub trait RJson: Sized + View {
    /// Reading `index` is defined: it does not panic.
    spec fn can_get(&self, index: Seq<char>) -> bool;

    /// The model of what reading `index` gives.
    spec fn got(&self, index: Seq<char>) -> Self::V;

    /// Writing at `index` is defined: it does not panic.
    spec fn can_set(&self, index: Seq<char>) -> bool;

    /// The model of the node that a walk for writing to `index` reaches.
    spec fn reached(&self, index: Seq<char>) -> Self::V;

    /// The model of this value once `v` is written at `index`.
    spec fn set_to(&self, index: Seq<char>, v: Self::V) -> Self::V;

    /// The value at `index`.
    fn pget(&self, index: &str) -> (r: &Self)
        requires
            self.can_get(index@),
        ensures
            r@ == self.got(index@),
    ;

    /// Short for [`RJson::pget`].
    fn g(&self, index: &str) -> (r: &Self)
        requires
            self.can_get(index@),
        ensures
            r@ == self.got(index@),
    {
        self.pget(index)
    }

    /// The value at `index`, for writing; missing keys on the way are made.
    fn pget_mut(&mut self, index: &str) -> (r: &mut Self)
        requires
            old(self).can_set(index@),
        ensures
            r@ == old(self).reached(index@),
            final(self)@ == old(self).set_to(index@, final(r)@),
    ;

    /// Short for [`RJson::pget_mut`].
    fn g_mut(&mut self, index: &str) -> (r: &mut Self)
        requires
            old(self).can_set(index@),
        ensures
            r@ == old(self).reached(index@),
            final(self)@ == old(self).set_to(index@, final(r)@),
    {
        self.pget_mut(index)
    }

    /// Writes `value` at `index`.
    fn pset(&mut self, index: &str, value: Self)
        requires
            old(self).can_set(index@),
        ensures
            final(self)@ == old(self).set_to(index@, value@),
    ;

    /// Short for [`RJson::pset`].
    fn s(&mut self, index: &str, value: Self)
        requires
            old(self).can_set(index@),
        ensures
            final(self)@ == old(self).set_to(index@, value@),
    {
        self.pset(index, value)
    }
}

} // verus!
