//! Global state and the tracking copy: a per-deploy overlay that records the
//! operations and transforms of an execution over a read-only base state.
use vstd::prelude::*;
use crate::key_map::{KeyId, KeyMap};
use crate::keys::{Key, key_id};
use crate::stored_value::{StoredValue, StoredValueView, copy_named_keys};
use crate::transform::{Transform, TransformView, TransformError, apply_spec, apply_transform, compose_spec, conflicts, lemma_no_conflict_commutes};

verus! {

/// A versioned store of values under keys.
pub struct GlobalState {
    pub values: KeyMap<StoredValue>,
}

impl View for GlobalState {
    type V = Map<KeyId, StoredValueView>;

    open spec fn view(&self) -> Map<KeyId, StoredValueView> {
        self.values@
    }
}

impl GlobalState {
    pub open spec fn wf(&self) -> bool {
        self.values.wf()
    }

    /// An empty state.
    pub fn new() -> (r: GlobalState)
        ensures
            r.wf(),
            r@ == Map::<KeyId, StoredValueView>::empty(),
    {
        GlobalState { values: KeyMap::new() }
    }

    /// The value under `k`.
    pub fn read(&self, k: &Key) -> (r: Option<StoredValue>)
        requires
            self.wf(),
        ensures
            match r {
                Some(v) => self@.contains_key(key_id(*k)) && self@[key_id(*k)] == v@,
                None => !self@.contains_key(key_id(*k)),
            },
    {
        match self.values.get(k) {
            Some(v) => Some(v.clone()),
            None => None,
        }
    }

    /// Puts `v` under `k`.
    pub fn write(&mut self, k: Key, v: StoredValue)
        requires
            old(self).wf(),
        ensures
            final(self).wf(),
            final(self)@ == old(self)@.insert(key_id(k), v@),
    {
        self.values.insert(k, v);
    }
}

/// A read of the state after a write gives the value written under the key
/// written, and what was there before under every other key.
pub proof fn lemma_read_after_write(s: Map<KeyId, StoredValueView>, k: Key, v: StoredValueView, other: Key)
    ensures
        s.insert(key_id(k), v).contains_key(key_id(k)),
        s.insert(key_id(k), v)[key_id(k)] == v,
        key_id(other) != key_id(k) ==> s.insert(key_id(k), v).contains_key(key_id(other))
            == s.contains_key(key_id(other)),
        key_id(other) != key_id(k) && s.contains_key(key_id(other)) ==> s.insert(key_id(k), v)[key_id(other)]
            == s[key_id(other)],
{
}

/// Writes under two different keys give the same state in either order.
pub proof fn lemma_writes_commute(
    s: Map<KeyId, StoredValueView>,
    k1: Key,
    v1: StoredValueView,
    k2: Key,
    v2: StoredValueView,
)
    requires
        key_id(k1) != key_id(k2),
    ensures
        s.insert(key_id(k1), v1).insert(key_id(k2), v2) == s.insert(key_id(k2), v2).insert(key_id(k1), v1),
{
    assert(s.insert(key_id(k1), v1).insert(key_id(k2), v2) =~= s.insert(key_id(k2), v2).insert(key_id(k1), v1));
}

/// The kind of access that an execution made to a key.
#[derive(Clone, Copy, Debug, PartialEq, Eq, Structural)]
pub enum Op {
    Read,
    Write,
    Add,
    NoOp,
}

impl View for Op {
    type V = Op;

    open spec fn view(&self) -> Op {
        *self
    }
}

/// Two accesses to one key, as one.
pub open spec fn op_sum(a: Op, b: Op) -> Op {
    match (a, b) {
        (_, Op::NoOp) => a,
        (Op::NoOp, _) => b,
        (Op::Read, Op::Read) => Op::Read,
        (Op::Add, Op::Add) => Op::Add,
        _ => Op::Write,
    }
}

impl Op {
    /// This access followed by `next`.
    pub fn sum(self, next: Op) -> (r: Op)
        ensures
            r == op_sum(self, next),
    {
        match (self, next) {
            (_, Op::NoOp) => self,
            (Op::NoOp, _) => next,
            (Op::Read, Op::Read) => Op::Read,
            (Op::Add, Op::Add) => Op::Add,
            _ => Op::Write,
        }
    }
}

/// Why a tracking-copy operation failed.
#[derive(Clone, Copy, Debug, PartialEq, Eq, Structural)]
pub enum TrackingCopyError {
    /// An addition was made to a key that holds no value.
    KeyNotFound,
    /// An addition met a value of another type.
    TypeMismatch,
}

/// The value that a key holds once a transform is applied to what the base
/// state holds there: `Err` where an addition meets no value or a value of
/// another type.
pub open spec fn project(base: Option<StoredValueView>, t: Option<TransformView>) -> Result<Option<StoredValueView>, TrackingCopyError> {
    match t {
        None => Ok(base),
        Some(TransformView::Identity) => Ok(base),
        Some(TransformView::Write(w)) => Ok(Some(w)),
        Some(t) => match base {
            None => Err(TrackingCopyError::KeyNotFound),
            Some(b) => match apply_spec(b, t) {
                Some(w) => Ok(Some(w)),
                None => Err(TrackingCopyError::TypeMismatch),
            },
        },
    }
}

pub open spec fn map_get<V>(m: Map<KeyId, V>, id: KeyId) -> Option<V> {
    if m.contains_key(id) {
        Some(m[id])
    } else {
        None
    }
}

impl Clone for Transform {
    fn clone(&self) -> (r: Transform)
        ensures
            r@ == self@,
    {
        match self {
            Transform::Identity => Transform::Identity,
            Transform::Write(v) => Transform::Write(v.clone()),
            Transform::AddInt32(n) => Transform::AddInt32(*n),
            Transform::AddUInt64(n) => Transform::AddUInt64(*n),
            Transform::AddUInt512(n) => Transform::AddUInt512(*n),
            Transform::AddKeys(k) => Transform::AddKeys(copy_named_keys(k)),
        }
    }
}

/// The value that `k` holds through a transform over a base state.
pub fn project_value(base: &GlobalState, t: Option<&Transform>, k: &Key) -> (r: Result<Option<StoredValue>, TrackingCopyError>)
    requires
        base.wf(),
    ensures
        match (r, project(map_get(base@, key_id(*k)), match t { Some(t) => Some(t@), None => None })) {
            (Ok(Some(v)), Ok(Some(w))) => v@ == w,
            (Ok(None), Ok(None)) => true,
            (Err(e), Err(f)) => e == f,
            _ => false,
        },
{
    let b = base.read(k);
    match t {
        None => Ok(b),
        Some(Transform::Identity) => Ok(b),
        Some(Transform::Write(w)) => Ok(Some(w.clone())),
        Some(t) => match b {
            None => Err(TrackingCopyError::KeyNotFound),
            Some(b) => match apply_transform(b, t) {
                Ok(w) => Ok(Some(w)),
                Err(_) => Err(TrackingCopyError::TypeMismatch),
            },
        },
    }
}


/// The transform recorded for a key, or the identity where there is none.
pub open spec fn current(m: Map<KeyId, TransformView>, id: KeyId) -> TransformView {
    if m.contains_key(id) {
        m[id]
    } else {
        TransformView::Identity
    }
}

/// The operation recorded for a key, or `NoOp` where there is none.
pub open spec fn current_op(m: Map<KeyId, Op>, id: KeyId) -> Op {
    if m.contains_key(id) {
        m[id]
    } else {
        Op::NoOp
    }
}

/// Whether a transform is an addition.
pub open spec fn is_addition(t: TransformView) -> bool {
    t is AddInt32 || t is AddUInt64 || t is AddUInt512 || t is AddKeys
}

/// The operations and transforms that an execution recorded.
pub struct ExecutionEffect {
    pub ops: KeyMap<Op>,
    pub transforms: KeyMap<Transform>,
}

impl ExecutionEffect {
    pub open spec fn wf(&self) -> bool {
        self.ops.wf() && self.transforms.wf()
    }
}

impl Default for ExecutionEffect {
    fn default() -> (r: ExecutionEffect)
        ensures
            r.wf(),
            r.ops@ == Map::<KeyId, Op>::empty(),
            r.transforms@ == Map::<KeyId, TransformView>::empty(),
    {
        ExecutionEffect { ops: KeyMap::new(), transforms: KeyMap::new() }
    }
}

fn copy_ops(m: &KeyMap<Op>) -> (r: KeyMap<Op>)
    ensures
        r.entries@ == m.entries@,
{
    let mut entries: Vec<(Key, Op)> = Vec::new();
    let mut i: usize = 0;
    while i < m.entries.len()
        invariant
            i <= m.entries@.len(),
            entries@ == m.entries@.subrange(0, i as int),
        decreases m.entries@.len() - i,
    {
        entries.push(m.entries[i]);
        assert(m.entries@.subrange(0, i + 1) =~= m.entries@.subrange(0, i as int) + seq![m.entries@[i as int]]);
        i = i + 1;
    }
    assert(m.entries@.subrange(0, m.entries@.len() as int) =~= m.entries@);
    KeyMap { entries }
}

proof fn lemma_entries_map_pointwise<V: View>(a: Seq<(Key, V)>, b: Seq<(Key, V)>)
    requires
        a.len() == b.len(),
        forall|i: int| 0 <= i < a.len() ==> a[i].0 == b[i].0 && a[i].1@ == b[i].1@,
    ensures
        crate::key_map::entries_map(a) == crate::key_map::entries_map(b),
    decreases a.len(),
{
    if a.len() > 0 {
        lemma_entries_map_pointwise(a.drop_last(), b.drop_last());
    }
}

fn copy_transforms(m: &KeyMap<Transform>) -> (r: KeyMap<Transform>)
    requires
        m.wf(),
    ensures
        r.wf(),
        r@ == m@,
{
    let mut entries: Vec<(Key, Transform)> = Vec::new();
    let mut i: usize = 0;
    while i < m.entries.len()
        invariant
            i <= m.entries@.len(),
            entries@.len() == i,
            forall|j: int| 0 <= j < i ==> entries@[j].0 == m.entries@[j].0 && entries@[j].1@ == m.entries@[j].1@,
        decreases m.entries@.len() - i,
    {
        entries.push((m.entries[i].0, m.entries[i].1.clone()));
        i = i + 1;
    }
    proof {
        lemma_entries_map_pointwise(entries@, m.entries@);
    }
    let r = KeyMap { entries };
    assert(r.wf()) by {
        assert forall|a: int, b: int| 0 <= a < b < r.entries@.len() implies key_id(#[trigger] r.entries@[a].0)
            != key_id(#[trigger] r.entries@[b].0) by {
            assert(r.entries@[a].0 == m.entries@[a].0);
            assert(r.entries@[b].0 == m.entries@[b].0);
        }
    }
    r
}

/// A per-deploy overlay over global state.
pub struct TrackingCopy {
    pub ops: KeyMap<Op>,
    pub transforms: KeyMap<Transform>,
}

impl TrackingCopy {
    pub open spec fn wf(&self) -> bool {
        self.ops.wf() && self.transforms.wf()
    }

    /// A copy that has recorded nothing.
    pub fn new() -> (r: TrackingCopy)
        ensures
            r.wf(),
            r.ops@ == Map::<KeyId, Op>::empty(),
            r.transforms@ == Map::<KeyId, TransformView>::empty(),
    {
        TrackingCopy { ops: KeyMap::new(), transforms: KeyMap::new() }
    }

    fn record(&mut self, k: Key, op: Op)
        requires
            old(self).wf(),
        ensures
            final(self).wf(),
            final(self).transforms == old(self).transforms,
            final(self).ops@ == old(self).ops@.insert(key_id(k), op_sum(current_op(old(self).ops@, key_id(k)), op)),
    {
        let prev = match self.ops.get(&k) {
            Some(o) => *o,
            None => Op::NoOp,
        };
        self.ops.insert(k, prev.sum(op));
    }

    /// The value that `k` holds: what the base state holds, through the
    /// transform recorded for `k`. Records a read.
    pub fn read(&mut self, base: &GlobalState, k: &Key) -> (r: Result<Option<StoredValue>, TrackingCopyError>)
        requires
            old(self).wf(),
            base.wf(),
        ensures
            final(self).wf(),
            final(self).transforms == old(self).transforms,
            final(self).ops@ == old(self).ops@.insert(key_id(*k), op_sum(current_op(old(self).ops@, key_id(*k)), Op::Read)),
            match (r, project(map_get(base@, key_id(*k)), map_get(old(self).transforms@, key_id(*k)))) {
                (Ok(Some(v)), Ok(Some(w))) => v@ == w,
                (Ok(None), Ok(None)) => true,
                (Err(e), Err(f)) => e == f,
                _ => false,
            },
    {
        let r = project_value(base, self.transforms.get(k), k);
        self.record(*k, Op::Read);
        r
    }

    /// Writes `v` under `k`, replacing whatever was recorded for it.
    pub fn write(&mut self, k: Key, v: StoredValue)
        requires
            old(self).wf(),
        ensures
            final(self).wf(),
            final(self).transforms@ == old(self).transforms@.insert(key_id(k), TransformView::Write(v@)),
            final(self).ops@ == old(self).ops@.insert(key_id(k), op_sum(current_op(old(self).ops@, key_id(k)), Op::Write)),
    {
        self.transforms.insert(k, Transform::Write(v));
        self.record(k, Op::Write);
    }

    /// Adds `t` to the value under `k`: the recorded transform becomes its
    /// composition with `t`. Fails, recording nothing, where there is no value
    /// under `k` or the value does not have the type that `t` needs.
    pub fn add(&mut self, base: &GlobalState, k: Key, t: Transform) -> (r: Result<(), TrackingCopyError>)
        requires
            old(self).wf(),
            base.wf(),
            is_addition(t@),
        ensures
            final(self).wf(),
            ({
                let id = key_id(k);
                let composed = compose_spec(current(old(self).transforms@, id), t@);
                match r {
                    Ok(()) => composed is Some
                        && project(map_get(base@, id), Some(composed->0)) is Ok
                        && final(self).transforms@ == old(self).transforms@.insert(id, composed->0)
                        && final(self).ops@ == old(self).ops@.insert(id, op_sum(current_op(old(self).ops@, id), Op::Add)),
                    Err(e) => *final(self) == *old(self) && (
                        (composed is None && e == TrackingCopyError::TypeMismatch)
                        || (composed is Some && project(map_get(base@, id), Some(composed->0)) == Err::<Option<StoredValueView>, TrackingCopyError>(e))),
                }
            }),
    {
        let prev = match self.transforms.get(&k) {
            Some(p) => p.clone(),
            None => Transform::Identity,
        };
        let composed = match prev.compose(t) {
            Ok(c) => c,
            Err(_) => return Err(TrackingCopyError::TypeMismatch),
        };
        match project_value(base, Some(&composed), &k) {
            Err(e) => {
                return Err(e);
            },
            Ok(_) => {},
        }
        self.transforms.insert(k, composed);
        self.record(k, Op::Add);
        Ok(())
    }

    /// What the copy has recorded.
    pub fn effect(&self) -> (r: ExecutionEffect)
        requires
            self.wf(),
        ensures
            r.wf(),
            r.ops@ == self.ops@,
            r.transforms@ == self.transforms@,
    {
        let ops = copy_ops(&self.ops);
        ExecutionEffect { ops, transforms: copy_transforms(&self.transforms) }
    }
}


/// Whether every transform of `tm` applies to what `s` holds.
pub open spec fn commit_ok(s: Map<KeyId, StoredValueView>, tm: Map<KeyId, TransformView>) -> bool {
    forall|id: KeyId| #[trigger] tm.contains_key(id) ==> project(map_get(s, id), Some(tm[id])) is Ok
}

/// What a key holds once the transforms of `tm` are committed to `s`.
pub open spec fn committed(s: Map<KeyId, StoredValueView>, tm: Map<KeyId, TransformView>, id: KeyId) -> Option<StoredValueView> {
    if tm.contains_key(id) {
        project(map_get(s, id), Some(tm[id]))->Ok_0
    } else {
        map_get(s, id)
    }
}

spec fn entry_projection(s: Map<KeyId, StoredValueView>, e: (Key, Transform)) -> Option<StoredValueView> {
    project(map_get(s, key_id(e.0)), Some(e.1@))->Ok_0
}

/// Applies recorded transforms to global state. Where one of them does not
/// apply, fails and leaves the state as it was.
pub fn commit(state: &mut GlobalState, transforms: &KeyMap<Transform>) -> (r: Result<(), TrackingCopyError>)
    requires
        old(state).wf(),
        transforms.wf(),
    ensures
        final(state).wf(),
        match r {
            Ok(()) => commit_ok(old(state)@, transforms@) && forall|id: KeyId|
                #[trigger] map_get(final(state)@, id) == committed(old(state)@, transforms@, id),
            Err(_) => !commit_ok(old(state)@, transforms@) && final(state)@ == old(state)@,
        },
{
    let ghost s0 = state@;
    let ghost es = transforms.entries@;
    let n = transforms.entries.len();
    let mut vals: Vec<Option<StoredValue>> = Vec::new();
    let mut i: usize = 0;
    while i < n
        invariant
            n == es.len(),
            es == transforms.entries@,
            transforms.wf(),
            state.wf(),
            state@ == s0,
            i <= n,
            vals@.len() == i,
            forall|j: int| 0 <= j < i ==> project(map_get(s0, key_id(es[j].0)), Some(es[j].1@)) is Ok,
            forall|j: int| 0 <= j < i ==> match #[trigger] vals@[j] {
                Some(v) => entry_projection(s0, es[j]) == Some(v@),
                None => entry_projection(s0, es[j]) is None,
            },
        decreases n - i,
    {
        let k = transforms.entries[i].0;
        match project_value(state, Some(&transforms.entries[i].1), &k) {
            Err(e) => {
                proof {
                    crate::key_map::lemma_entries_map_has(es, i as int);
                }
                return Err(e);
            },
            Ok(v) => {
                vals.push(v);
            },
        }
        i = i + 1;
    }
    let mut j: usize = n;
    while j > 0
        invariant
            n == es.len(),
            es == transforms.entries@,
            transforms.wf(),
            state.wf(),
            j <= n,
            vals@.len() == j,
            forall|x: int| 0 <= x < n ==> project(map_get(s0, key_id(es[x].0)), Some(es[x].1@)) is Ok,
            forall|x: int| 0 <= x < j ==> match #[trigger] vals@[x] {
                Some(v) => entry_projection(s0, es[x]) == Some(v@),
                None => entry_projection(s0, es[x]) is None,
            },
            forall|x: int| j <= x < n ==> map_get(state@, key_id(#[trigger] es[x].0)) == entry_projection(s0, es[x]),
            forall|id: KeyId| (forall|x: int| j <= x < n ==> key_id(#[trigger] es[x].0) != id) ==> map_get(state@, id) == map_get(s0, id),
        decreases j,
    {
        let v = vals.pop();
        let k = transforms.entries[j - 1].0;
        let ghost before = state@;
        let ghost idj = key_id(k);
        assert(forall|x: int| j <= x < n ==> key_id(#[trigger] es[x].0) != idj);
        match v {
            Some(Some(v)) => {
                state.write(k, v);
            },
            _ => {
                assert(entry_projection(s0, es[j - 1]) is None);
                assert(map_get(before, idj) == map_get(s0, idj));
                assert(map_get(s0, idj) is None);
            },
        }
        j = j - 1;
    }
    proof {
        assert forall|id: KeyId| #[trigger] transforms@.contains_key(id) implies project(map_get(s0, id), Some(transforms@[id])) is Ok by {
            let x = crate::key_map::lemma_entries_map_index(es, id);
            crate::key_map::lemma_entries_map_has(es, x);
        }
        assert forall|id: KeyId| #[trigger] map_get(state@, id) == committed(s0, transforms@, id) by {
            if transforms@.contains_key(id) {
                let x = crate::key_map::lemma_entries_map_index(es, id);
                crate::key_map::lemma_entries_map_has(es, x);
            } else {
                assert forall|x: int| 0 <= x < n implies key_id(#[trigger] es[x].0) != id by {
                    crate::key_map::lemma_entries_map_has(es, x);
                }
            }
        }
    }
    Ok(())
}


/// What two sibling copies recorded for one key, merged: the composition
/// where both recorded a transform.
pub open spec fn merged(a: Map<KeyId, TransformView>, b: Map<KeyId, TransformView>, id: KeyId) -> Option<TransformView> {
    if a.contains_key(id) && b.contains_key(id) {
        compose_spec(a[id], b[id])
    } else if a.contains_key(id) {
        Some(a[id])
    } else if b.contains_key(id) {
        Some(b[id])
    } else {
        None
    }
}

/// Whether two sibling copies recorded conflicting transforms for some key.
pub open spec fn copies_conflict(a: Map<KeyId, TransformView>, b: Map<KeyId, TransformView>) -> bool {
    exists|id: KeyId| a.contains_key(id) && b.contains_key(id) && conflicts(#[trigger] a[id], b[id])
}

/// Merges the transforms of two sibling copies. Fails with `Conflict` where
/// both recorded conflicting transforms for one key.
pub fn merge_transforms(a: &KeyMap<Transform>, b: &KeyMap<Transform>) -> (r: Result<KeyMap<Transform>, TransformError>)
    requires
        a.wf(),
        b.wf(),
    ensures
        match r {
            Ok(m) => m.wf() && !copies_conflict(a@, b@) && forall|id: KeyId| #[trigger] map_get(m@, id) == merged(a@, b@, id),
            Err(e) => e == TransformError::Conflict && copies_conflict(a@, b@),
        },
{
    let mut m = copy_transforms(a);
    let ghost es = b.entries@;
    let mut j: usize = 0;
    while j < b.entries.len()
        invariant
            a.wf(),
            b.wf(),
            m.wf(),
            es == b.entries@,
            j <= es.len(),
            forall|x: int| 0 <= x < j ==> !(a@.contains_key(key_id(es[x].0)) && conflicts(a@[key_id(es[x].0)], #[trigger] es[x].1@)),
            forall|x: int| 0 <= x < j ==> map_get(m@, key_id(#[trigger] es[x].0)) == merged(a@, b@, key_id(es[x].0)),
            forall|id: KeyId| (forall|x: int| 0 <= x < j ==> key_id(#[trigger] es[x].0) != id) ==> map_get(m@, id) == map_get(a@, id),
        decreases es.len() - j,
    {
        let k = b.entries[j].0;
        let ghost idj = key_id(k);
        proof {
            crate::key_map::lemma_entries_map_has(es, j as int);
        }
        assert(forall|x: int| 0 <= x < j ==> key_id(#[trigger] es[x].0) != idj);
        let t = b.entries[j].1.clone();
        match a.get(&k) {
            Some(prev) => {
                if prev.conflicts_with(&t) {
                    return Err(TransformError::Conflict);
                }
                proof {
                    lemma_no_conflict_commutes(prev@, t@);
                }
                let composed = match prev.clone().compose(t) {
                    Ok(c) => c,
                    Err(e) => return Err(e),
                };
                m.insert(k, composed);
            },
            None => {
                m.insert(k, t);
            },
        }
        j = j + 1;
    }
    proof {
        assert forall|id: KeyId| #[trigger] map_get(m@, id) == merged(a@, b@, id) by {
            if b@.contains_key(id) {
                let x = crate::key_map::lemma_entries_map_index(es, id);
            } else {
                assert forall|x: int| 0 <= x < es.len() implies key_id(#[trigger] es[x].0) != id by {
                    crate::key_map::lemma_entries_map_has(es, x);
                }
            }
        }
        assert(!copies_conflict(a@, b@)) by {
            assert forall|id: KeyId| !(a@.contains_key(id) && b@.contains_key(id) && conflicts(#[trigger] a@[id], b@[id])) by {
                if a@.contains_key(id) && b@.contains_key(id) {
                    let x = crate::key_map::lemma_entries_map_index(es, id);
                    crate::key_map::lemma_entries_map_has(es, x);
                }
            }
        }
    }
    Ok(m)
}

/// Merging the transforms of two sibling copies does not depend on their
/// order: neither the conflict nor the merged transforms do.
pub proof fn lemma_merge_symmetric(a: Map<KeyId, TransformView>, b: Map<KeyId, TransformView>, id: KeyId)
    ensures
        copies_conflict(a, b) == copies_conflict(b, a),
        !copies_conflict(a, b) ==> merged(a, b, id) == merged(b, a, id),
{
    assert(copies_conflict(a, b) == copies_conflict(b, a)) by {
        if copies_conflict(a, b) {
            let w = choose|w: KeyId| a.contains_key(w) && b.contains_key(w) && conflicts(#[trigger] a[w], b[w]);
            crate::transform::lemma_conflicts_symmetric(a[w], b[w]);
        }
        if copies_conflict(b, a) {
            let w = choose|w: KeyId| b.contains_key(w) && a.contains_key(w) && conflicts(#[trigger] b[w], a[w]);
            crate::transform::lemma_conflicts_symmetric(b[w], a[w]);
        }
    }
    if !copies_conflict(a, b) && a.contains_key(id) && b.contains_key(id) {
        lemma_no_conflict_commutes(a[id], b[id]);
    }
}

} // verus!
