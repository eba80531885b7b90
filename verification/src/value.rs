//! JSON values, their mathematical model, and navigation along dotted paths
//! with the indexing rules of `serde_json`.

use vstd::prelude::*;

use crate::RJson;
use crate::path::{num_regex_match, parse_usize, is_num, parse_index, split_index, split_path, strings_view};

verus! {

/// A JSON number is carried through as the `serde_json` value; nothing here
/// reads inside it.
#[verifier::external_type_specification]
#[verifier::external_body]
pub struct ExNumber(serde_json::Number);

/// A JSON value. An object is a list of members; in a well-formed value
/// (see [`wf`]) their keys are in order, each once, and writing a new key puts
/// it in its place.
#[derive(Debug, PartialEq)]
pub enum Value {
    Null,
    Bool(bool),
    Number(serde_json::Number),
    String(String),
    Array(Vec<Value>),
    Object(Vec<(String, Value)>),
}

/// The mathematical model of a [`Value`].
pub enum JValue {
    Null,
    Bool(bool),
    Number(serde_json::Number),
    String(Seq<char>),
    Array(Seq<JValue>),
    Object(Seq<(Seq<char>, JValue)>),
}

/// The model of a value, member by member and element by element.
pub open spec fn model(v: Value) -> JValue
    decreases v,
{
    match v {
        Value::Null => JValue::Null,
        Value::Bool(b) => JValue::Bool(b),
        Value::Number(n) => JValue::Number(n),
        Value::String(s) => JValue::String(s@),
        Value::Array(a) => JValue::Array(
            Seq::new(
                a@.len(),
                |i: int|
                    if 0 <= i < a@.len() {
                        model(a@[i])
                    } else {
                        JValue::Null
                    },
            ),
        ),
        Value::Object(m) => JValue::Object(
            Seq::new(
                m@.len(),
                |i: int|
                    if 0 <= i < m@.len() {
                        (m@[i].0@, model(m@[i].1))
                    } else {
                        (Seq::<char>::empty(), JValue::Null)
                    },
            ),
        ),
    }
}

impl View for Value {
    type V = JValue;

    open spec fn view(&self) -> JValue {
        model(*self)
    }
}

/// `i` is the first position of the key `k` among the members `m`.
pub open spec fn first_key_at(m: Seq<(Seq<char>, JValue)>, k: Seq<char>, i: int) -> bool {
    &&& 0 <= i < m.len()
    &&& m[i].0 == k
    &&& forall|j: int| 0 <= j < i ==> m[j].0 != k
}

/// The first position of the key `k` among the members `m`, or -1.
pub open spec fn find_key(m: Seq<(Seq<char>, JValue)>, k: Seq<char>) -> int {
    if exists|i: int| first_key_at(m, k, i) {
        choose|i: int| first_key_at(m, k, i)
    } else {
        -1
    }
}

/// Whether a segment picks an element of `j` by position: `j` is an array
/// and the segment matches `^\d+$`.
pub open spec fn by_position(j: JValue, seg: Seq<char>) -> bool {
    j is Array && num_regex_match(seg)
}

/// Reading `seg` in `j` is defined: a segment taken as a position parses.
/// (Where it does not, the read panics.)
pub open spec fn step_ok(j: JValue, seg: Seq<char>) -> bool {
    by_position(j, seg) ==> parse_usize(seg) is Some
}

/// The value that `j[seg]` reads: the element at that position of an array,
/// the member of an object under that key, and `Null` where there is none.
pub open spec fn step(j: JValue, seg: Seq<char>) -> JValue {
    match j {
        JValue::Array(v) => {
            if num_regex_match(seg) && parse_usize(seg) is Some && (parse_usize(seg)->0 as int)
                < v.len() {
                v[parse_usize(seg)->0 as int]
            } else {
                JValue::Null
            }
        },
        JValue::Object(m) => {
            let p = find_key(m, seg);
            if p >= 0 {
                m[p].1
            } else {
                JValue::Null
            }
        },
        _ => JValue::Null,
    }
}

/// Reading every segment of `segs` in turn is defined.
pub open spec fn get_ok(j: JValue, segs: Seq<Seq<char>>) -> bool
    decreases segs.len(),
{
    segs.len() == 0 || (step_ok(j, segs[0]) && get_ok(step(j, segs[0]), segs.drop_first()))
}

/// The value reached by reading the segments `segs` in turn from `j`.
pub open spec fn get_path(j: JValue, segs: Seq<Seq<char>>) -> JValue
    decreases segs.len(),
{
    if segs.len() == 0 {
        j
    } else {
        get_path(step(j, segs[0]), segs.drop_first())
    }
}

/// Writing through `seg` in `j` is defined: an array is written at a
/// position that parses and lies within it; `Null` and objects are written
/// under a key. Everything else panics.
pub open spec fn mut_ok(j: JValue, seg: Seq<char>) -> bool {
    match j {
        JValue::Array(v) => num_regex_match(seg) && parse_usize(seg) is Some && (parse_usize(
            seg,
        )->0 as int) < v.len(),
        JValue::Null => true,
        JValue::Object(_) => true,
        _ => false,
    }
}

/// `a` comes before `b` among keys: the first character where they differ
/// is smaller, or `a` is a proper prefix of `b`. (This is the order of
/// `String`s, by which `serde_json` keeps an object's keys.)
pub open spec fn key_lt(a: Seq<char>, b: Seq<char>) -> bool
    decreases a.len(),
{
    if a.len() == 0 {
        b.len() > 0
    } else if b.len() == 0 {
        false
    } else if a[0] != b[0] {
        (a[0] as int) < (b[0] as int)
    } else {
        key_lt(a.drop_first(), b.drop_first())
    }
}

/// `i` is the first position among the members `m` whose key comes after `k`.
pub open spec fn first_after_at(m: Seq<(Seq<char>, JValue)>, k: Seq<char>, i: int) -> bool {
    &&& 0 <= i < m.len()
    &&& key_lt(k, m[i].0)
    &&& forall|j: int| 0 <= j < i ==> !key_lt(k, #[trigger] m[j].0)
}

/// Where a new key `k` goes among the members `m`: before the first key
/// that comes after it, or at the end.
pub open spec fn insert_pos(m: Seq<(Seq<char>, JValue)>, k: Seq<char>) -> int {
    if exists|i: int| first_after_at(m, k, i) {
        choose|i: int| first_after_at(m, k, i)
    } else {
        m.len() as int
    }
}

/// `j` as it is before the slot for `seg` is written: `Null` becomes an
/// object, and an object missing the key gets it, with `Null`, in its place
/// in the order of keys.
pub open spec fn vivify(j: JValue, seg: Seq<char>) -> JValue {
    match j {
        JValue::Null => JValue::Object(seq![(seg, JValue::Null)]),
        JValue::Object(m) => if find_key(m, seg) >= 0 {
            j
        } else {
            JValue::Object(m.insert(insert_pos(m, seg), (seg, JValue::Null)))
        },
        _ => j,
    }
}

/// The position of the slot that writing through `seg` reaches in
/// `vivify(j, seg)`.
pub open spec fn slot(j: JValue, seg: Seq<char>) -> int {
    match vivify(j, seg) {
        JValue::Array(_) => parse_usize(seg)->0 as int,
        JValue::Object(m) => find_key(m, seg),
        _ => 0,
    }
}

/// The value in the slot that writing through `seg` reaches.
pub open spec fn child(j: JValue, seg: Seq<char>) -> JValue {
    match vivify(j, seg) {
        JValue::Array(v) => v[slot(j, seg)],
        JValue::Object(m) => m[slot(j, seg)].1,
        _ => JValue::Null,
    }
}

/// `j` with `c` written through `seg`.
pub open spec fn put(j: JValue, seg: Seq<char>, c: JValue) -> JValue {
    match vivify(j, seg) {
        JValue::Array(v) => JValue::Array(v.update(slot(j, seg), c)),
        JValue::Object(m) => JValue::Object(m.update(slot(j, seg), (seg, c))),
        _ => j,
    }
}

/// Writing through every segment of `segs` in turn is defined.
pub open spec fn set_ok(j: JValue, segs: Seq<Seq<char>>) -> bool
    decreases segs.len(),
{
    segs.len() == 0 || (mut_ok(j, segs[0]) && set_ok(child(j, segs[0]), segs.drop_first()))
}

/// The value that the walk through `segs` for writing reaches, once the
/// missing keys on the way are made.
pub open spec fn walk_path(j: JValue, segs: Seq<Seq<char>>) -> JValue
    decreases segs.len(),
{
    if segs.len() == 0 {
        j
    } else {
        walk_path(child(j, segs[0]), segs.drop_first())
    }
}

/// `j` with `v` written at the end of the path `segs`.
pub open spec fn set_path(j: JValue, segs: Seq<Seq<char>>, v: JValue) -> JValue
    decreases segs.len(),
{
    if segs.len() == 0 {
        v
    } else {
        put(j, segs[0], set_path(child(j, segs[0]), segs.drop_first(), v))
    }
}

/// The first member of `m` whose key is `k`.
fn find_member(m: &Vec<(String, Value)>, k: &String) -> (r: Option<usize>)
    ensures
        match r {
            Some(p) => first_key_at(members_view(m@), k@, p as int),
            None => forall|i: int| 0 <= i < m@.len() ==> m@[i].0@ != k@,
        },
{
    let mut i: usize = 0;
    while i < m.len()
        invariant
            i <= m@.len(),
            forall|j: int| 0 <= j < i ==> m@[j].0@ != k@,
        decreases m@.len() - i,
    {
        if m[i].0 == *k {
            proof {
                assert forall|j: int| 0 <= j < i implies members_view(m@)[j].0 != k@ by {}
            }
            return Some(i);
        }
        i = i + 1;
    }
    None
}

/// The model of the members of an object.
pub open spec fn members_view(m: Seq<(String, Value)>) -> Seq<(Seq<char>, JValue)> {
    Seq::new(m.len(), |i: int| (m[i].0@, m[i].1@))
}

/// The model of the elements of an array.
pub open spec fn elems_view(v: Seq<Value>) -> Seq<JValue> {
    Seq::new(v.len(), |i: int| v[i]@)
}

broadcast proof fn lemma_view_array(v: Vec<Value>)
    ensures
        #[trigger] Value::Array(v)@ == JValue::Array(elems_view(v@)),
{
    let a = Value::Array(v);
    assert(a@->Array_0 =~= elems_view(v@));
}

broadcast proof fn lemma_view_object(m: Vec<(String, Value)>)
    ensures
        #[trigger] Value::Object(m)@ == JValue::Object(members_view(m@)),
{
    let a = Value::Object(m);
    assert(a@->Object_0 =~= members_view(m@));
}

broadcast proof fn lemma_elems_update(v: Seq<Value>, n: int, x: Value)
    requires
        0 <= n < v.len(),
    ensures
        #[trigger] elems_view(v.update(n, x)) == elems_view(v).update(n, x@),
{
    assert(elems_view(v.update(n, x)) =~= elems_view(v).update(n, x@));
}

broadcast proof fn lemma_members_update(m: Seq<(String, Value)>, n: int, x: (String, Value))
    requires
        0 <= n < m.len(),
    ensures
        #[trigger] members_view(m.update(n, x)) == members_view(m).update(n, (x.0@, x.1@)),
{
    assert(members_view(m.update(n, x)) =~= members_view(m).update(n, (x.0@, x.1@)));
}

pub broadcast group group_view_lemmas {
    lemma_view_array,
    lemma_view_object,
    lemma_elems_update,
    lemma_members_update,
}

proof fn lemma_find_key(m: Seq<(Seq<char>, JValue)>, k: Seq<char>, p: int)
    requires
        first_key_at(m, k, p),
    ensures
        find_key(m, k) == p,
{
    let q = choose|i: int| first_key_at(m, k, i);
    assert(first_key_at(m, k, q));
    if q < p {
        assert(m[q].0 != k);
    } else if p < q {
        assert(m[p].0 != k);
    }
}

proof fn lemma_find_key_none(m: Seq<(Seq<char>, JValue)>, k: Seq<char>)
    requires
        forall|i: int| 0 <= i < m.len() ==> m[i].0 != k,
    ensures
        find_key(m, k) == -1,
{
}

impl Value {
    /// Reads `self[seg]` as `serde_json`'s `Index` does.
    pub fn step_ref(&self, seg: &str) -> (r: &Value)
        requires
            step_ok(self@, seg@),
        ensures
            r@ == step(self@, seg@),
    {
        match self {
            Value::Array(v) => {
                proof {
                    lemma_view_array(*v);
                }
                if is_num(seg) {
                    match parse_index(seg) {
                        Some(n) => {
                            if n < v.len() {
                                &v[n]
                            } else {
                                &Value::Null
                            }
                        },
                        None => &Value::Null,
                    }
                } else {
                    &Value::Null
                }
            },
            Value::Object(m) => {
                proof {
                    lemma_view_object(*m);
                }
                let key = seg.to_owned();
                match find_member(m, &key) {
                    Some(p) => {
                        proof {
                            lemma_find_key(members_view(m@), seg@, p as int);
                        }
                        &m[p].1
                    },
                    None => {
                        proof {
                            lemma_find_key_none(members_view(m@), seg@);
                        }
                        &Value::Null
                    },
                }
            },
            _ => &Value::Null,
        }
    }
}


/// The characters of `s`.
fn chars_of(s: &str) -> (r: Vec<char>)
    ensures
        r@ == s@,
{
    let mut r: Vec<char> = Vec::new();
    for c in it: s.chars()
        invariant
            it.seq() == s@,
            r@ == s@.take(it.index() as int),
    {
        assert(s@.take(it.index() + 1) =~= r@.push(c));
        r.push(c);
    }
    assert(s@.take(s@.len() as int) =~= s@);
    r
}

proof fn lemma_key_lt_skip(a: Seq<char>, b: Seq<char>, i: int)
    requires
        0 <= i <= a.len(),
        i <= b.len(),
        a.take(i) == b.take(i),
    ensures
        key_lt(a, b) == key_lt(a.skip(i), b.skip(i)),
    decreases i,
{
    if i > 0 {
        assert(a.take(i - 1) =~= a.take(i).take(i - 1));
        assert(b.take(i - 1) =~= b.take(i).take(i - 1));
        lemma_key_lt_skip(a, b, i - 1);
        assert(a[i - 1] == a.take(i)[i - 1]);
        assert(b[i - 1] == b.take(i)[i - 1]);
        assert(a.skip(i - 1).drop_first() =~= a.skip(i));
        assert(b.skip(i - 1).drop_first() =~= b.skip(i));
    } else {
        assert(a.skip(0) =~= a);
        assert(b.skip(0) =~= b);
    }
}

/// Whether the key `a` comes before the key `b`.
fn key_less(a: &str, b: &str) -> (r: bool)
    ensures
        r == key_lt(a@, b@),
{
    let va = chars_of(a);
    let vb = chars_of(b);
    let mut i: usize = 0;
    while i < va.len() && i < vb.len() && va[i] == vb[i]
        invariant
            va@ == a@,
            vb@ == b@,
            i <= va@.len(),
            i <= vb@.len(),
            va@.take(i as int) == vb@.take(i as int),
        decreases va@.len() - i,
    {
        assert(va@.take(i + 1) =~= va@.take(i as int).push(va@[i as int]));
        assert(vb@.take(i + 1) =~= vb@.take(i as int).push(vb@[i as int]));
        i = i + 1;
    }
    proof {
        lemma_key_lt_skip(va@, vb@, i as int);
        assert(va@.skip(i as int).len() == va@.len() - i);
        if i < va@.len() {
            assert(va@.skip(i as int)[0] == va@[i as int]);
        }
        if i < vb@.len() {
            assert(vb@.skip(i as int)[0] == vb@[i as int]);
        }
    }
    if i < va.len() && i < vb.len() {
        va[i] < vb[i]
    } else {
        i == va.len() && i < vb.len()
    }
}

/// Where the new key `k` goes among the members `m`.
fn find_insert_pos(m: &Vec<(String, Value)>, k: &str) -> (p: usize)
    ensures
        p as int == insert_pos(members_view(m@), k@),
{
    let ghost mv = members_view(m@);
    let mut i: usize = 0;
    while i < m.len()
        invariant
            i <= m@.len(),
            mv == members_view(m@),
            forall|j: int| 0 <= j < i ==> !key_lt(k@, #[trigger] mv[j].0),
        decreases m@.len() - i,
    {
        if key_less(k, m[i].0.as_str()) {
            proof {
                assert(first_after_at(mv, k@, i as int));
                lemma_insert_pos_unique(mv, k@, i as int);
            }
            return i;
        }
        i = i + 1;
    }
    proof {
        if exists|q: int| first_after_at(mv, k@, q) {
            let q = choose|q: int| first_after_at(mv, k@, q);
            assert(first_after_at(mv, k@, q));
            assert(!key_lt(k@, mv[q].0));
        }
    }
    i
}

/// The member under `key`, for writing; a missing key is added with `Null`
/// in its place in the order of keys. Gives the member's position.
fn member_slot(m: &mut Vec<(String, Value)>, key: String) -> (p: usize)
    ensures
        ({
            let v = vivify(JValue::Object(members_view(old(m)@)), key@);
            &&& p as int == slot(JValue::Object(members_view(old(m)@)), key@)
            &&& members_view(final(m)@) == v->Object_0
            &&& p < final(m)@.len()
        }),
{
    let ghost m0 = members_view(m@);
    let ghost k = key@;
    match find_member(m, &key) {
        Some(p) => {
            proof {
                lemma_find_key(m0, k, p as int);
            }
            p
        },
        None => {
            proof {
                lemma_find_key_none(m0, k);
            }
            let pos = find_insert_pos(m, key.as_str());
            m.insert(pos, (key, Value::Null));
            proof {
                assert(members_view(m@) =~= m0.insert(pos as int, (k, JValue::Null)));
                lemma_find_key_insert(m0, k, JValue::Null, k);
            }
            pos
        },
    }
}

impl Value {
    fn array_child(&mut self, n: usize) -> (r: &mut Value)
        requires
            *old(self) is Array,
            n < old(self)->Array_0@.len(),
        ensures
            r@ == old(self)@->Array_0[n as int],
            final(self)@ == JValue::Array(old(self)@->Array_0.update(n as int, final(r)@)),
    {
        broadcast use group_view_lemmas;

        match self {
            Value::Array(v) => &mut v[n],
            _ => {
                proof {
                    assert(false);
                }
                self
            },
        }
    }

    fn object_child(&mut self, seg: &str) -> (r: &mut Value)
        requires
            *old(self) is Null || *old(self) is Object,
        ensures
            r@ == vivify(old(self)@, seg@)->Object_0[slot(old(self)@, seg@)].1,
            final(self)@ == JValue::Object(
                vivify(old(self)@, seg@)->Object_0.update(
                    slot(old(self)@, seg@),
                    (seg@, final(r)@),
                ),
            ),
    {
        broadcast use group_view_lemmas;

        let was_null = match self {
            Value::Null => true,
            _ => false,
        };
        if was_null {
            let empty: Vec<(String, Value)> = Vec::new();
            proof {
                assert(members_view(empty@) =~= Seq::empty());
            }
            *self = Value::Object(empty);
            proof {
                let e = Seq::<(Seq<char>, JValue)>::empty();
                lemma_insert_pos(e, seg@);
                assert(seq![(seg@, JValue::Null)] =~= e.insert(0, (seg@, JValue::Null)));
                lemma_find_key_none(e, seg@);
            }
        }
        match self {
            Value::Object(m) => {
                let p = member_slot(m, seg.to_owned());
                &mut m[p].1
            },
            _ => {
                proof {
                    assert(false);
                }
                self
            },
        }
    }
}

impl Value {
    /// Reaches the slot `self[seg]` for writing, as `serde_json`'s `IndexMut`
    /// does: `Null` becomes an object, and a missing key is added with `Null`.
    pub fn child_mut(&mut self, seg: &str) -> (r: &mut Value)
        requires
            mut_ok(old(self)@, seg@),
        ensures
            r@ == child(old(self)@, seg@),
            final(self)@ == put(old(self)@, seg@, final(r)@),
    {
        broadcast use group_view_lemmas;

        let is_array = match self {
            Value::Array(_) => true,
            _ => false,
        };
        if is_array && is_num(seg) {
            let n = match parse_index(seg) {
                Some(n) => n,
                None => 0,
            };
            self.array_child(n)
        } else {
            self.object_child(seg)
        }
    }
}


/// Writing through a path and then one more segment is writing, through the
/// path, the node that the walk reaches with that segment written.
proof fn lemma_set_path_snoc(j: JValue, prefix: Seq<Seq<char>>, last: Seq<char>, v: JValue)
    ensures
        set_path(j, prefix.push(last), v) == set_path(j, prefix, put(walk_path(j, prefix), last, v)),
        set_ok(j, prefix.push(last)) == (set_ok(j, prefix) && mut_ok(walk_path(j, prefix), last)),
    decreases prefix.len(),
{
    if prefix.len() == 0 {
        assert(prefix.push(last).drop_first() =~= Seq::<Seq<char>>::empty());
        reveal_with_fuel(set_path, 2);
        reveal_with_fuel(set_ok, 2);
    } else {
        assert(prefix.push(last).drop_first() =~= prefix.drop_first().push(last));
        lemma_set_path_snoc(child(j, prefix[0]), prefix.drop_first(), last, v);
    }
}

impl Value {
    /// Walks `segs[i..end]` for writing and gives the node reached.
    fn walk_mut(&mut self, segs: &Vec<String>, i: usize, end: usize) -> (r: &mut Value)
        requires
            i <= end <= segs@.len(),
            set_ok(old(self)@, strings_view(segs@).subrange(i as int, end as int)),
        ensures
            r@ == walk_path(old(self)@, strings_view(segs@).subrange(i as int, end as int)),
            final(self)@ == set_path(
                old(self)@,
                strings_view(segs@).subrange(i as int, end as int),
                final(r)@,
            ),
        decreases end - i,
    {
        let ghost sub = strings_view(segs@).subrange(i as int, end as int);
        if i == end {
            proof {
                assert(sub.len() == 0);
            }
            self
        } else {
            proof {
                assert(sub[0] == segs@[i as int]@);
                assert(sub.drop_first() =~= strings_view(segs@).subrange(i + 1, end as int));
            }
            let c = self.child_mut(segs[i].as_str());
            c.walk_mut(segs, i + 1, end)
        }
    }

    /// Reads the segments `segs` in turn.
    fn get_segments(&self, segs: &Vec<String>) -> (r: &Value)
        requires
            get_ok(self@, strings_view(segs@)),
        ensures
            r@ == get_path(self@, strings_view(segs@)),
    {
        let ghost all = strings_view(segs@);
        let mut cur: &Value = self;
        let mut i: usize = 0;
        proof {
            assert(all.skip(0) =~= all);
        }
        while i < segs.len()
            invariant
                i <= segs@.len(),
                all == strings_view(segs@),
                get_path(self@, all) == get_path(cur@, all.skip(i as int)),
                get_ok(cur@, all.skip(i as int)),
            decreases segs@.len() - i,
        {
            proof {
                assert(all.skip(i as int)[0] == segs@[i as int]@);
                assert(all.skip(i as int).drop_first() =~= all.skip(i + 1));
            }
            cur = cur.step_ref(segs[i].as_str());
            i = i + 1;
        }
        proof {
            assert(all.skip(i as int) =~= Seq::<Seq<char>>::empty());
        }
        cur
    }
}

impl crate::RJson for Value {
    open spec fn can_get(&self, index: Seq<char>) -> bool {
        get_ok(self@, split_path(index))
    }

    open spec fn got(&self, index: Seq<char>) -> JValue {
        get_path(self@, split_path(index))
    }

    open spec fn can_set(&self, index: Seq<char>) -> bool {
        set_ok(self@, split_path(index))
    }

    open spec fn reached(&self, index: Seq<char>) -> JValue {
        walk_path(self@, split_path(index))
    }

    open spec fn set_to(&self, index: Seq<char>, v: JValue) -> JValue {
        set_path(self@, split_path(index), v)
    }

    fn pget(&self, index: &str) -> (r: &Value) {
        let segs = split_index(index);
        self.get_segments(&segs)
    }

    fn pget_mut(&mut self, index: &str) -> (r: &mut Value) {
        let segs = split_index(index);
        let n = segs.len();
        proof {
            assert(strings_view(segs@).subrange(0, n as int) =~= strings_view(segs@));
        }
        self.walk_mut(&segs, 0, n)
    }

    fn pset(&mut self, index: &str, value: Value) {
        let segs = split_index(index);
        let n = segs.len();
        let ghost all = strings_view(segs@);
        let ghost prefix = all.subrange(0, n - 1);
        proof {
            assert(all =~= prefix.push(all[n - 1]));
            lemma_set_path_snoc(old(self)@, prefix, all[n - 1], value@);
        }
        let node = self.walk_mut(&segs, 0, n - 1);
        let slot = node.child_mut(segs[n - 1].as_str());
        *slot = value;
    }
}


/// A matching key at `j` means there is a first one, no later than `j`.
proof fn lemma_find_key_exists(m: Seq<(Seq<char>, JValue)>, k: Seq<char>, j: int)
    requires
        0 <= j < m.len(),
        m[j].0 == k,
    ensures
        0 <= find_key(m, k) <= j,
        first_key_at(m, k, find_key(m, k)),
    decreases j,
{
    if forall|i: int| 0 <= i < j ==> m[i].0 != k {
        lemma_find_key(m, k, j);
    } else {
        let i = choose|i: int| 0 <= i < j && m[i].0 == k;
        lemma_find_key_exists(m, k, i);
    }
}

/// `find_key` gives the first position of the key, or -1 where it is absent.
proof fn lemma_find_key_cases(m: Seq<(Seq<char>, JValue)>, k: Seq<char>)
    ensures
        find_key(m, k) >= 0 ==> first_key_at(m, k, find_key(m, k)),
        find_key(m, k) < 0 ==> find_key(m, k) == -1 && forall|i: int| 0 <= i < m.len() ==> m[i].0 != k,
{
    if find_key(m, k) >= 0 {
        let q = choose|i: int| first_key_at(m, k, i);
        assert(first_key_at(m, k, q));
    } else {
        assert forall|i: int| 0 <= i < m.len() implies m[i].0 != k by {
            if m[i].0 == k {
                lemma_find_key_exists(m, k, i);
            }
        }
    }
}

/// Members with the same keys, position by position, find keys alike.
proof fn lemma_find_key_same_keys(m1: Seq<(Seq<char>, JValue)>, m2: Seq<(Seq<char>, JValue)>, k: Seq<char>)
    requires
        m1.len() == m2.len(),
        forall|i: int| 0 <= i < m1.len() ==> m1[i].0 == m2[i].0,
    ensures
        find_key(m1, k) == find_key(m2, k),
{
    lemma_find_key_cases(m1, k);
    lemma_find_key_cases(m2, k);
    if find_key(m1, k) >= 0 {
        lemma_find_key(m2, k, find_key(m1, k));
    } else if find_key(m2, k) >= 0 {
        lemma_find_key(m1, k, find_key(m2, k));
    }
}

proof fn lemma_key_lt_total(a: Seq<char>, b: Seq<char>)
    ensures
        a != b ==> key_lt(a, b) || key_lt(b, a),
        key_lt(a, b) ==> !key_lt(b, a),
    decreases a.len(),
{
    if a.len() > 0 && b.len() > 0 && a[0] == b[0] {
        lemma_key_lt_total(a.drop_first(), b.drop_first());
        if a.drop_first() == b.drop_first() {
            assert(a =~= seq![a[0]] + a.drop_first());
            assert(b =~= seq![b[0]] + b.drop_first());
            assert(a == b);
        }
    } else if a.len() == 0 && b.len() == 0 {
        assert(a =~= b);
    } else if a.len() > 0 && b.len() > 0 {
        assert(a[0] != b[0]);
        assert((a[0] as int) != (b[0] as int));
    }
}

proof fn lemma_key_lt_transitive(a: Seq<char>, b: Seq<char>, c: Seq<char>)
    requires
        key_lt(a, b),
        key_lt(b, c),
    ensures
        key_lt(a, c),
    decreases a.len(),
{
    if a.len() > 0 && b.len() > 0 && c.len() > 0 && a[0] == b[0] && b[0] == c[0] {
        lemma_key_lt_transitive(a.drop_first(), b.drop_first(), c.drop_first());
    }
}

/// `insert_pos` is a position, and the key comes after the keys before it.
proof fn lemma_insert_pos(m: Seq<(Seq<char>, JValue)>, k: Seq<char>)
    ensures
        0 <= insert_pos(m, k) <= m.len(),
        forall|j: int| 0 <= j < insert_pos(m, k) ==> !key_lt(k, #[trigger] m[j].0),
        insert_pos(m, k) < m.len() ==> key_lt(k, m[insert_pos(m, k)].0),
{
    if exists|i: int| first_after_at(m, k, i) {
        let q = choose|i: int| first_after_at(m, k, i);
        assert(first_after_at(m, k, q));
    } else {
        assert forall|j: int| 0 <= j < m.len() implies !key_lt(k, #[trigger] m[j].0) by {
            if key_lt(k, m[j].0) {
                lemma_first_after_exists(m, k, j);
            }
        }
    }
}

proof fn lemma_first_after_exists(m: Seq<(Seq<char>, JValue)>, k: Seq<char>, j: int)
    requires
        0 <= j < m.len(),
        key_lt(k, m[j].0),
    ensures
        exists|i: int| first_after_at(m, k, i),
    decreases j,
{
    if forall|i: int| 0 <= i < j ==> !key_lt(k, #[trigger] m[i].0) {
        assert(first_after_at(m, k, j));
    } else {
        let i = choose|i: int| 0 <= i < j && key_lt(k, #[trigger] m[i].0);
        lemma_first_after_exists(m, k, i);
    }
}

proof fn lemma_insert_pos_unique(m: Seq<(Seq<char>, JValue)>, k: Seq<char>, p: int)
    requires
        first_after_at(m, k, p),
    ensures
        insert_pos(m, k) == p,
{
    let q = choose|i: int| first_after_at(m, k, i);
    assert(first_after_at(m, k, q));
    if q < p {
        assert(!key_lt(k, m[q].0));
    } else if p < q {
        assert(!key_lt(k, m[p].0));
    }
}

/// Adding a missing key `k` in its place: `k` is found there, and every
/// other key is found where it was, one further on if it was after `k`.
#[verifier::rlimit(50)]
proof fn lemma_find_key_insert(m: Seq<(Seq<char>, JValue)>, k: Seq<char>, c: JValue, x: Seq<char>)
    requires
        find_key(m, k) < 0,
    ensures
        ({
            let p = insert_pos(m, k);
            let m1 = m.insert(p, (k, c));
            &&& 0 <= p <= m.len()
            &&& m1.len() == m.len() + 1
            &&& m1[p] == (k, c)
            &&& forall|i: int| 0 <= i < p ==> #[trigger] m1[i] == m[i]
            &&& forall|i: int| p <= i < m.len() ==> m1[i + 1] == m[i]
            &&& find_key(m1, k) == p
            &&& x != k ==> find_key(m1, x) == (if find_key(m, x) < 0 {
                -1
            } else if find_key(m, x) < p {
                find_key(m, x)
            } else {
                find_key(m, x) + 1
            })
        }),
{
    let p = insert_pos(m, k);
    lemma_insert_pos(m, k);
    m.insert_ensures(p, (k, c));
    let m1 = m.insert(p, (k, c));
    lemma_find_key_cases(m, k);
    lemma_find_key_cases(m, x);
    lemma_find_key_cases(m1, x);
    assert forall|i: int| 0 <= i < p implies m1[i].0 != k by {
        assert(m1[i] == m[i]);
    }
    lemma_find_key(m1, k, p);
    if x != k {
        let f = find_key(m, x);
        if f >= 0 {
            if f < p {
                assert(m1[f] == m[f]);
                assert forall|i: int| 0 <= i < f implies m1[i].0 != x by {
                    assert(m1[i] == m[i]);
                }
                lemma_find_key(m1, x, f);
            } else {
                assert(m1[f + 1] == m[f]);
                assert forall|i: int| 0 <= i < f + 1 implies m1[i].0 != x by {
                    if i < p {
                        assert(m1[i] == m[i]);
                    } else if i > p {
                        assert(m1[i] == m[i - 1]);
                    }
                }
                lemma_find_key(m1, x, f + 1);
            }
        } else if find_key(m1, x) >= 0 {
            let g = find_key(m1, x);
            if g < p {
                assert(m1[g] == m[g]);
            } else if g > p {
                assert(m1[g] == m[g - 1]);
            }
        }
    }
}

/// Replacing the member at the position of its key keeps every key where it is.
proof fn lemma_find_key_update(m: Seq<(Seq<char>, JValue)>, p: int, c: JValue, x: Seq<char>)
    requires
        0 <= p < m.len(),
    ensures
        find_key(m.update(p, (m[p].0, c)), x) == find_key(m, x),
{
    lemma_find_key_same_keys(m, m.update(p, (m[p].0, c)), x);
}

/// Where writing through `seg` is defined: the slot holds what was put in
/// it, reading `seg` there gives it, and putting again replaces it.
proof fn lemma_put(j: JValue, seg: Seq<char>, a: JValue, b: JValue)
    requires
        mut_ok(j, seg),
    ensures
        step_ok(put(j, seg, a), seg),
        step(put(j, seg, a), seg) == a,
        mut_ok(put(j, seg, a), seg),
        child(put(j, seg, a), seg) == a,
        put(put(j, seg, a), seg, b) == put(j, seg, b),
{
    match j {
        JValue::Array(v) => {
            assert(v.update(slot(j, seg), a).update(slot(j, seg), b) =~= v.update(slot(j, seg), b));
        },
        JValue::Null => {
            let m0 = seq![(seg, JValue::Null)];
            lemma_find_key(m0, seg, 0);
            let m1 = m0.update(0, (seg, a));
            lemma_find_key_update(m0, 0, a, seg);
            assert(m1.update(0, (seg, b)) =~= m0.update(0, (seg, b)));
        },
        JValue::Object(m) => {
            lemma_find_key_cases(m, seg);
            let v = vivify(j, seg)->Object_0;
            let p = slot(j, seg);
            if find_key(m, seg) < 0 {
                lemma_find_key_insert(m, seg, JValue::Null, seg);
            }
            lemma_find_key_cases(v, seg);
            assert(v[p].0 == seg);
            lemma_find_key_update(v, p, a, seg);
            assert(v.update(p, (seg, a)).update(p, (seg, b)) =~= v.update(p, (seg, b)));
        },
        _ => {},
    }
}

/// Law: reading a path just written gives back what was written (and the
/// read is defined).
pub proof fn law_read_after_write(j: JValue, segs: Seq<Seq<char>>, v: JValue)
    requires
        set_ok(j, segs),
    ensures
        get_ok(set_path(j, segs, v), segs),
        get_path(set_path(j, segs, v), segs) == v,
    decreases segs.len(),
{
    if segs.len() > 0 {
        let x = set_path(child(j, segs[0]), segs.drop_first(), v);
        lemma_put(j, segs[0], x, x);
        law_read_after_write(child(j, segs[0]), segs.drop_first(), v);
    }
}

/// Law: writing a path twice is writing it once, with the second value.
pub proof fn law_write_twice(j: JValue, segs: Seq<Seq<char>>, v1: JValue, v2: JValue)
    requires
        set_ok(j, segs),
    ensures
        set_ok(set_path(j, segs, v1), segs),
        set_path(set_path(j, segs, v1), segs, v2) == set_path(j, segs, v2),
    decreases segs.len(),
{
    if segs.len() > 0 {
        let c = child(j, segs[0]);
        let rest = segs.drop_first();
        let x1 = set_path(c, rest, v1);
        let x2 = set_path(c, rest, v2);
        lemma_put(j, segs[0], x1, set_path(x1, rest, v2));
        law_write_twice(c, rest, v1, v2);
    }
}

/// Reading anything from `Null` gives `Null`.
proof fn lemma_get_null(segs: Seq<Seq<char>>)
    ensures
        get_path(JValue::Null, segs) == JValue::Null,
    decreases segs.len(),
{
    if segs.len() > 0 {
        lemma_get_null(segs.drop_first());
    }
}

/// Law: writing under one key of an object (or of `Null`, which becomes
/// one) leaves what is read under another key as it was.
pub proof fn law_write_keeps_other_keys(
    j: JValue,
    p: Seq<Seq<char>>,
    q: Seq<Seq<char>>,
    v: JValue,
)
    requires
        j is Object || j is Null,
        p.len() > 0,
        q.len() > 0,
        p[0] != q[0],
    ensures
        get_path(set_path(j, p, v), q) == get_path(j, q),
{
    let x = set_path(child(j, p[0]), p.drop_first(), v);
    let w = put(j, p[0], x);
    assert(set_path(j, p, v) == w);
    match j {
        JValue::Null => {
            let m0 = seq![(p[0], JValue::Null)];
            let m1 = m0.update(0, (p[0], x));
            lemma_find_key(m0, p[0], 0);
            lemma_find_key_cases(m1, q[0]);
            assert(m1[0].0 != q[0]);
            assert(step(w, q[0]) == JValue::Null);
            lemma_get_null(q.drop_first());
        },
        JValue::Object(m) => {
            lemma_find_key_cases(m, p[0]);
            let vm = vivify(j, p[0])->Object_0;
            let s = slot(j, p[0]);
            if find_key(m, p[0]) < 0 {
                lemma_find_key_insert(m, p[0], JValue::Null, p[0]);
                lemma_find_key_insert(m, p[0], JValue::Null, q[0]);
            }
            lemma_find_key_cases(vm, p[0]);
            lemma_find_key_update(vm, s, x, q[0]);
            lemma_find_key_cases(m, q[0]);
            assert(step(w, q[0]) == step(j, q[0]));
        },
        _ => {},
    }
}


/// Well-formed: every object, at any depth, has its keys in order, each
/// once, as a JSON object of `serde_json` does.
pub open spec fn wf(j: JValue) -> bool
    decreases j,
{
    match j {
        JValue::Array(v) => forall|i: int| 0 <= i < v.len() ==> wf(#[trigger] v[i]),
        JValue::Object(m) => {
            &&& forall|i: int, k: int| 0 <= i < k < m.len() ==> key_lt(#[trigger] m[i].0, #[trigger] m[k].0)
            &&& forall|i: int| 0 <= i < m.len() ==> wf(#[trigger] m[i].1)
        },
        _ => true,
    }
}

/// Putting a well-formed value in a well-formed value keeps it well-formed,
/// and the slot of a well-formed value is well-formed.
proof fn lemma_put_wf(j: JValue, seg: Seq<char>, c: JValue)
    requires
        mut_ok(j, seg),
        wf(j),
    ensures
        wf(child(j, seg)),
        wf(c) ==> wf(put(j, seg, c)),
{
    match j {
        JValue::Array(v) => {
            let w = v.update(slot(j, seg), c);
            if wf(c) {
                assert forall|i: int| 0 <= i < w.len() implies wf(#[trigger] w[i]) by {
                    if i != slot(j, seg) {
                        assert(w[i] == v[i]);
                    }
                }
            }
        },
        JValue::Null => {
            let m0 = seq![(seg, JValue::Null)];
            lemma_find_key(m0, seg, 0);
            let w = m0.update(0, (seg, c));
            if wf(c) {
                assert forall|i: int| 0 <= i < w.len() implies wf(#[trigger] w[i].1) by {}
            }
        },
        JValue::Object(m) => {
            lemma_find_key_cases(m, seg);
            let vm = vivify(j, seg)->Object_0;
            let p = slot(j, seg);
            if find_key(m, seg) < 0 {
                lemma_find_key_insert(m, seg, JValue::Null, seg);
                let q = insert_pos(m, seg);
                lemma_insert_pos(m, seg);
                assert forall|i: int| 0 <= i < q implies key_lt(#[trigger] m[i].0, seg) by {
                    lemma_key_lt_total(m[i].0, seg);
                }
                assert forall|i: int| q <= i < m.len() implies key_lt(seg, #[trigger] m[i].0) by {
                    if i > q {
                        lemma_key_lt_transitive(seg, m[q].0, m[i].0);
                    }
                }
                assert forall|i: int, k: int| 0 <= i < k < vm.len() implies key_lt(#[trigger] vm[i].0, #[trigger] vm[k].0) by {
                    if i < q {
                        assert(vm[i] == m[i]);
                    } else if i > q {
                        assert(vm[i] == m[i - 1]);
                    }
                    if k < q {
                        assert(vm[k] == m[k]);
                    } else if k > q {
                        assert(vm[k] == m[k - 1]);
                    }
                    if i < q && k > q {
                        lemma_key_lt_transitive(m[i].0, seg, m[k - 1].0);
                    }
                }
                assert forall|i: int| 0 <= i < vm.len() implies wf(#[trigger] vm[i].1) by {
                    if i < q {
                        assert(vm[i] == m[i]);
                    } else if i > q {
                        assert(vm[i] == m[i - 1]);
                    }
                }
            }
            lemma_find_key_cases(vm, seg);
            let w = vm.update(p, (seg, c));
            assert forall|i: int, k: int| 0 <= i < k < w.len() implies key_lt(#[trigger] w[i].0, #[trigger] w[k].0) by {
                assert(key_lt(vm[i].0, vm[k].0));
            }
            if wf(c) {
                assert forall|i: int| 0 <= i < w.len() implies wf(#[trigger] w[i].1) by {
                    if i != p {
                        assert(w[i] == vm[i]);
                    }
                }
            }
        },
        _ => {},
    }
}

/// Law: writing a well-formed value into a well-formed value keeps it
/// well-formed; each object keeps its keys distinct.
pub proof fn law_write_keeps_wf(j: JValue, segs: Seq<Seq<char>>, v: JValue)
    requires
        wf(j),
        wf(v),
        set_ok(j, segs),
    ensures
        wf(set_path(j, segs, v)),
        wf(walk_path(j, segs)),
    decreases segs.len(),
{
    if segs.len() > 0 {
        lemma_put_wf(j, segs[0], set_path(child(j, segs[0]), segs.drop_first(), v));
        law_write_keeps_wf(child(j, segs[0]), segs.drop_first(), v);
    }
}

/// Law: what a read of a well-formed value gives is well-formed.
pub proof fn law_read_keeps_wf(j: JValue, segs: Seq<Seq<char>>)
    requires
        wf(j),
    ensures
        wf(get_path(j, segs)),
    decreases segs.len(),
{
    if segs.len() > 0 {
        let s0 = segs[0];
        match j {
            JValue::Array(v) => {},
            JValue::Object(m) => {
                lemma_find_key_cases(m, s0);
            },
            _ => {},
        }
        law_read_keeps_wf(step(j, s0), segs.drop_first());
    }
}


/// Writing through anything, from `Null`, is defined.
proof fn lemma_set_ok_null(segs: Seq<Seq<char>>)
    ensures
        set_ok(JValue::Null, segs),
    decreases segs.len(),
{
    if segs.len() > 0 {
        lemma_find_key(seq![(segs[0], JValue::Null)], segs[0], 0);
        assert(child(JValue::Null, segs[0]) == JValue::Null);
        lemma_set_ok_null(segs.drop_first());
    }
}

impl Value {
    /// Whether reading `index` is defined: whether [`RJson::pget`] may be
    /// called with it.
    pub fn readable(&self, index: &str) -> (r: bool)
        ensures
            r == get_ok(self@, split_path(index@)),
    {
        let segs = split_index(index);
        let ghost all = strings_view(segs@);
        let mut cur: &Value = self;
        let mut i: usize = 0;
        proof {
            assert(all.skip(0) =~= all);
        }
        while i < segs.len()
            invariant
                i <= segs@.len(),
                all == strings_view(segs@),
                all == split_path(index@),
                get_ok(self@, all) == get_ok(cur@, all.skip(i as int)),
            decreases segs@.len() - i,
        {
            proof {
                assert(all.skip(i as int)[0] == segs@[i as int]@);
                assert(all.skip(i as int).drop_first() =~= all.skip(i + 1));
            }
            let seg = segs[i].as_str();
            let is_array = match cur {
                Value::Array(_) => true,
                _ => false,
            };
            if is_array && is_num(seg) && parse_index(seg).is_none() {
                return false;
            }
            cur = cur.step_ref(seg);
            i = i + 1;
        }
        proof {
            assert(all.skip(i as int) =~= Seq::<Seq<char>>::empty());
        }
        true
    }

    /// Whether writing at `index` is defined: whether [`RJson::pset`] and
    /// [`RJson::pget_mut`] may be called with it.
    pub fn writable(&self, index: &str) -> (r: bool)
        ensures
            r == set_ok(self@, split_path(index@)),
    {
        let segs = split_index(index);
        let ghost all = strings_view(segs@);
        let mut cur: &Value = self;
        let mut i: usize = 0;
        proof {
            assert(all.skip(0) =~= all);
        }
        while i < segs.len()
            invariant
                i <= segs@.len(),
                all == strings_view(segs@),
                all == split_path(index@),
                set_ok(self@, all) == set_ok(cur@, all.skip(i as int)),
            decreases segs@.len() - i,
        {
            let ghost rest = all.skip(i as int);
            proof {
                assert(rest[0] == segs@[i as int]@);
                assert(rest.drop_first() =~= all.skip(i + 1));
            }
            let seg = segs[i].as_str();
            match cur {
                Value::Array(v) => {
                    proof {
                        lemma_view_array(*v);
                    }
                    if !is_num(seg) {
                        return false;
                    }
                    match parse_index(seg) {
                        Some(n) => {
                            if n < v.len() {
                                cur = &v[n];
                            } else {
                                return false;
                            }
                        },
                        None => {
                            return false;
                        },
                    }
                },
                Value::Object(m) => {
                    proof {
                        lemma_view_object(*m);
                    }
                    let key = seg.to_owned();
                    match find_member(m, &key) {
                        Some(p) => {
                            proof {
                                lemma_find_key(members_view(m@), seg@, p as int);
                            }
                            cur = &m[p].1;
                        },
                        None => {
                            proof {
                                let mv = members_view(m@);
                                lemma_find_key_none(mv, seg@);
                                lemma_find_key_insert(mv, seg@, JValue::Null, seg@);
                                lemma_set_ok_null(rest.drop_first());
                            }
                            return true;
                        },
                    }
                },
                Value::Null => {
                    proof {
                        lemma_set_ok_null(rest);
                    }
                    return true;
                },
                _ => {
                    return false;
                },
            }
            i = i + 1;
        }
        proof {
            assert(all.skip(i as int) =~= Seq::<Seq<char>>::empty());
        }
        true
    }

    /// The value at `index`, or `None` where reading it is not defined
    /// (where [`RJson::pget`] panics).
    pub fn try_pget(&self, index: &str) -> (r: Option<&Value>)
        ensures
            r is Some <==> get_ok(self@, split_path(index@)),
            r matches Some(v) ==> v@ == get_path(self@, split_path(index@)),
    {
        if self.readable(index) {
            Some(self.pget(index))
        } else {
            None
        }
    }

    /// Writes `value` at `index` and gives `true`; or, where writing there is
    /// not defined (where [`RJson::pset`] panics), changes nothing and gives
    /// `false`.
    pub fn try_pset(&mut self, index: &str, value: Value) -> (r: bool)
        ensures
            r == set_ok(old(self)@, split_path(index@)),
            r ==> final(self)@ == set_path(old(self)@, split_path(index@), value@),
            !r ==> final(self)@ == old(self)@,
    {
        if self.writable(index) {
            self.pset(index, value);
            true
        } else {
            false
        }
    }
}


/// Where writing through `seg` is defined, the slot it reaches holds what
/// reading `seg` gives.
proof fn lemma_step_child(j: JValue, seg: Seq<char>)
    requires
        mut_ok(j, seg),
    ensures
        step(j, seg) == child(j, seg),
{
    match j {
        JValue::Null => {
            lemma_find_key(seq![(seg, JValue::Null)], seg, 0);
        },
        JValue::Object(m) => {
            lemma_find_key_cases(m, seg);
            if find_key(m, seg) < 0 {
                lemma_find_key_insert(m, seg, JValue::Null, seg);
            }
        },
        _ => {},
    }
}

/// Two paths that part at some segment (the same segments before it, then
/// different slots of the node reached): neither is a prefix of the other.
pub open spec fn apart(j: JValue, p: Seq<Seq<char>>, q: Seq<Seq<char>>) -> bool
    decreases p.len(),
{
    &&& p.len() > 0
    &&& q.len() > 0
    &&& if p[0] == q[0] {
        apart(child(j, p[0]), p.drop_first(), q.drop_first())
    } else {
        match j {
            JValue::Array(_) => !(num_regex_match(q[0]) && parse_usize(q[0]) == parse_usize(p[0])),
            _ => true,
        }
    }
}

/// Law: a write leaves what is read along any path apart from the written
/// one as it was.
pub proof fn law_write_keeps_other_paths(j: JValue, p: Seq<Seq<char>>, q: Seq<Seq<char>>, v: JValue)
    requires
        set_ok(j, p),
        apart(j, p, q),
    ensures
        get_path(set_path(j, p, v), q) == get_path(j, q),
    decreases p.len(),
{
    let c = child(j, p[0]);
    let x = set_path(c, p.drop_first(), v);
    if p[0] == q[0] {
        lemma_put(j, p[0], x, x);
        lemma_step_child(j, p[0]);
        law_write_keeps_other_paths(c, p.drop_first(), q.drop_first(), v);
    } else {
        match j {
            JValue::Array(a) => {
                let w = put(j, p[0], x);
                assert(step(w, q[0]) == step(j, q[0]));
            },
            _ => {
                law_write_keeps_other_keys(j, p, q, v);
            },
        }
    }
}

/// The slot for `seg` exists in `j`: an element in range of an array, or a
/// key of an object.
pub open spec fn present(j: JValue, seg: Seq<char>) -> bool {
    match j {
        JValue::Array(v) => num_regex_match(seg) && parse_usize(seg) is Some && (parse_usize(
            seg,
        )->0 as int) < v.len(),
        JValue::Object(m) => find_key(m, seg) >= 0,
        _ => false,
    }
}

/// Every step of `segs` reaches an existing slot.
pub open spec fn path_present(j: JValue, segs: Seq<Seq<char>>) -> bool
    decreases segs.len(),
{
    segs.len() == 0 || (present(j, segs[0]) && path_present(step(j, segs[0]), segs.drop_first()))
}

/// Law: along a path that exists, the walk for writing makes nothing and
/// reaches what a read gives; writing back what it reached changes nothing.
pub proof fn law_walk_existing_path(j: JValue, segs: Seq<Seq<char>>)
    requires
        path_present(j, segs),
    ensures
        set_ok(j, segs),
        get_ok(j, segs),
        walk_path(j, segs) == get_path(j, segs),
        set_path(j, segs, walk_path(j, segs)) == j,
    decreases segs.len(),
{
    if segs.len() > 0 {
        let s0 = segs[0];
        lemma_step_child(j, s0);
        law_walk_existing_path(step(j, s0), segs.drop_first());
        match j {
            JValue::Array(v) => {
                assert(v.update(slot(j, s0), v[slot(j, s0)]) =~= v);
            },
            JValue::Object(m) => {
                lemma_find_key_cases(m, s0);
                let p = find_key(m, s0);
                assert(m.update(p, (s0, m[p].1)) =~= m);
            },
            _ => {},
        }
    }
}


/// Law: a read step is undefined only where the segment matches the digit
/// pattern on an array and does not parse as a position; a position past the
/// end of an array is read as `Null`.
pub proof fn law_read_step_defined(j: JValue, seg: Seq<char>)
    ensures
        step_ok(j, seg) == !(j is Array && num_regex_match(seg) && parse_usize(seg) is None),
        j is Array && num_regex_match(seg) && parse_usize(seg) is Some
            && (parse_usize(seg)->0 as int) >= j->Array_0.len() ==> step_ok(j, seg) && step(j, seg)
            == JValue::Null,
{
}

/// Law: reading an array at a position that parses is defined whatever the
/// array's length, and a position past its end reads as `Null`, however many
/// segments follow.
pub proof fn law_out_of_range_reads_null(v: Seq<JValue>, segs: Seq<Seq<char>>)
    requires
        segs.len() > 0,
        num_regex_match(segs[0]),
        parse_usize(segs[0]) is Some,
        (parse_usize(segs[0])->0 as int) >= v.len(),
    ensures
        get_ok(JValue::Array(v), segs),
        get_path(JValue::Array(v), segs) == JValue::Null,
{
    lemma_get_null(segs.drop_first());
    lemma_get_ok_null(segs.drop_first());
}

/// Reading anything from `Null` is defined.
proof fn lemma_get_ok_null(segs: Seq<Seq<char>>)
    ensures
        get_ok(JValue::Null, segs),
    decreases segs.len(),
{
    if segs.len() > 0 {
        lemma_get_ok_null(segs.drop_first());
    }
}

} // verus!
