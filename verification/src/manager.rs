//! The view context manager: owner of the ordered set of live views, the
//! single active view, and the save/load cycle.
//!
//! Invariants: no two live views share an identifier, and the active
//! identifier, when set, names a live view. A view becomes active only after
//! it has been initialized.

use vstd::prelude::*;

use crate::b64::{b64_decode, b64_decode_of, b64_encode, b64_of};
use crate::codec::{
    decode_state, decode_state_spec, encode_state, recs_model, spec_encode, ViewRecord,
};
use crate::errors::ErrorKind;
use crate::views::{
    build_view, parse_payload_spec, payload_bytes, state_key_bytes, ViewContext, ViewKind,
};

verus! {

/// Whether some view in `s` carries identifier `id`.
pub open spec fn seq_has_id(s: Seq<ViewContext>, id: u128) -> bool {
    exists|i: int| 0 <= i < s.len() && s[i].id == id
}

/// Whether some view in `s` carries identifier `id` and is initialized.
pub open spec fn id_inited(s: Seq<ViewContext>, id: u128) -> bool {
    exists|i: int| 0 <= i < s.len() && s[i].id == id && s[i].inited
}

/// No two views in `s` share an identifier.
pub open spec fn unique_ids(s: Seq<ViewContext>) -> bool {
    forall|i: int, j: int| 0 <= i < j < s.len() ==> s[i].id != s[j].id
}

/// The snapshot the persistence adapter carries: one (kind, identifier,
/// serialized definition) triple per live view, in sequence order.
pub open spec fn snapshot(s: Seq<ViewContext>) -> Seq<(ViewKind, u128, Seq<u8>)> {
    s.map_values(|v: ViewContext| (v.kind, v.id, payload_bytes(v.id)))
}

/// The views rebuilt from decoded triples: the factory restores each view
/// under the identifier its definition holds, not yet initialized.
pub open spec fn restored_views(ts: Seq<(ViewKind, u128, Seq<u8>)>) -> Seq<ViewContext> {
    ts.map_values(
        |t: (ViewKind, u128, Seq<u8>)| ViewContext {
            kind: t.0,
            id: (match parse_payload_spec(t.2) {
                Some(pid) => pid,
                None => 0,
            }),
            inited: false,
        },
    )
}

/// A routed attribute operation, addressed to the active view, for the host
/// to carry out against the render boundary.
#[derive(Debug, PartialEq, Eq)]
pub enum AttrAction {
    Read { view: u128, key: Vec<u8> },
    Write { view: u128, key: Vec<u8>, value: Vec<u8> },
    Delete { view: u128, key: Vec<u8> },
}

/// The manager. It owns the ordered sequence of live views and the relation
/// to the single active view.
pub struct ViewContextManager {
    pub contexts: Vec<ViewContext>,
    pub active: Option<u128>,
}

impl ViewContextManager {
    /// Well-formedness: live identifiers are unique, and the active
    /// identifier, when set, names a live view.
    pub open spec fn wf(self) -> bool {
        &&& unique_ids(self.contexts@)
        &&& (self.active matches Some(a) ==> seq_has_id(self.contexts@, a))
    }

    /// The text `save_all` produces for this manager state.
    pub open spec fn blob_of(self) -> Seq<char> {
        b64_of(spec_encode(snapshot(self.contexts@), self.active))
    }

    /// An empty manager: no views, no active view.
    pub fn new() -> (m: ViewContextManager)
        ensures
            m.contexts@.len() == 0,
            m.active is None,
            m.wf(),
    {
        ViewContextManager { contexts: Vec::new(), active: None }
    }

    /// Appends a view to the ordered sequence. Registration is separate from
    /// activation: the view is not initialized here.
    pub fn add_view(&mut self, v: ViewContext)
        requires
            old(self).wf(),
            !seq_has_id(old(self).contexts@, v.id),
        ensures
            final(self).contexts@ == old(self).contexts@.push(v),
            final(self).active == old(self).active,
            final(self).wf(),
    {
        self.contexts.push(v);
        proof {
            let s = self.contexts@;
            let pre = old(self).contexts@;
            assert forall|i: int, j: int| 0 <= i < j < s.len() implies s[i].id != s[j].id by {
                if j < pre.len() {
                    assert(pre[i].id != pre[j].id);
                } else {
                    assert(s[j] == v);
                    if pre[i].id == v.id {
                        assert(seq_has_id(pre, v.id));
                    }
                }
            }
            match self.active {
                Some(a) => {
                    let w = choose|i: int| 0 <= i < pre.len() && pre[i].id == a;
                    assert(s[w].id == a);
                },
                None => {},
            }
        }
    }

    /// The global initialization pass: initializes every registered view in
    /// sequence order — each exactly once — then makes the first view active,
    /// or leaves the active relation undefined when there are no views.
    /// Returns, in order, the storage keys whose renderer-side resources the
    /// host must allocate.
    pub fn init(&mut self) -> (keys: Vec<Vec<u8>>)
        requires
            old(self).wf(),
            forall|i: int| 0 <= i < old(self).contexts@.len() ==> !(#[trigger] old(self).contexts@[i]).inited,
        ensures
            final(self).contexts@.len() == old(self).contexts@.len(),
            forall|i: int| 0 <= i < old(self).contexts@.len() ==> (#[trigger] final(self).contexts@[i]) == (ViewContext {
                kind: old(self).contexts@[i].kind,
                id: old(self).contexts@[i].id,
                inited: true,
            }),
            final(self).active == (if old(self).contexts@.len() == 0 {
                None::<u128>
            } else {
                Some(old(self).contexts@[0].id)
            }),
            keys@.len() == old(self).contexts@.len(),
            forall|i: int| 0 <= i < old(self).contexts@.len() ==> (#[trigger] keys@[i])@
                == state_key_bytes(old(self).contexts@[i].kind, old(self).contexts@[i].id),
            final(self).wf(),
    {
        let mut keys: Vec<Vec<u8>> = Vec::new();
        let n: usize = self.contexts.len();
        let mut i: usize = 0;
        while i < n
            invariant
                i <= n,
                n == self.contexts@.len(),
                self.contexts@.len() == old(self).contexts@.len(),
                self.active == old(self).active,
                forall|t: int| i <= t < n ==> #[trigger] self.contexts@[t] == old(self).contexts@[t],
                forall|t: int| 0 <= t < n ==> !(#[trigger] old(self).contexts@[t]).inited,
                forall|t: int| 0 <= t < i ==> (#[trigger] self.contexts@[t]) == (ViewContext {
                    kind: old(self).contexts@[t].kind,
                    id: old(self).contexts@[t].id,
                    inited: true,
                }),
                keys@.len() == i,
                forall|t: int| 0 <= t < i ==> (#[trigger] keys@[t])@ == state_key_bytes(
                    old(self).contexts@[t].kind,
                    old(self).contexts@[t].id,
                ),
            decreases n - i,
        {
            let mut v: ViewContext = self.contexts[i];
            let key = v.init();
            self.contexts.set(i, v);
            keys.push(key);
            i = i + 1;
        }
        if self.contexts.len() > 0 {
            let a: u128 = self.contexts[0].id;
            self.active = Some(a);
        } else {
            self.active = None;
        }
        proof {
            let s = self.contexts@;
            let pre = old(self).contexts@;
            assert forall|p: int, q: int| 0 <= p < q < s.len() implies s[p].id != s[q].id by {
                assert(pre[p].id != pre[q].id);
            }
            if s.len() > 0 {
                assert(s[0].id == pre[0].id);
                assert(seq_has_id(s, pre[0].id));
            }
        }
        keys
    }

    /// Removes the view with the given identifier: releases its renderer
    /// resources, disposes it, and takes it out of the sequence, returning the
    /// storage key the host must delete. Fails with `NotFound` when no live
    /// view carries the identifier. Removing the active view leaves the
    /// active relation undefined.
    pub fn remove_view(&mut self, id: u128) -> (r: Result<Vec<u8>, ErrorKind>)
        requires
            old(self).wf(),
        ensures
            final(self).wf(),
            r is Err <==> !seq_has_id(old(self).contexts@, id),
            r is Err ==> r == Err::<Vec<u8>, ErrorKind>(ErrorKind::NotFound) && final(self).contexts@ == old(self).contexts@ && final(self).active == old(self).active,
            r is Ok ==> exists|i: int|
                0 <= i < old(self).contexts@.len() && old(self).contexts@[i].id == id && final(self).contexts@ == old(self).contexts@.remove(i),
            (match r {
                Ok(k) => k@ == state_key_bytes(
                    old(self).contexts@[(choose|i: int|
                        0 <= i < old(self).contexts@.len() && old(self).contexts@[i].id
                            == id)].kind,
                    id,
                ),
                Err(e) => e == ErrorKind::NotFound,
            }),
            r is Ok ==> !seq_has_id(final(self).contexts@, id),
            old(self).active == Some(id) ==> final(self).active is None,
            r is Ok && old(self).active != Some(id) ==> final(self).active == old(self).active,
    {
        let n: usize = self.contexts.len();
        let mut i: usize = 0;
        while i < n
            invariant
                i <= n,
                n == self.contexts@.len(),
                self.contexts@ == old(self).contexts@,
                self.active == old(self).active,
                old(self).wf(),
                forall|t: int| 0 <= t < i ==> (#[trigger] self.contexts@[t]).id != id,
            decreases n - i,
        {
            if self.contexts[i].id == id {
                let v: ViewContext = self.contexts[i];
                let _cleanup_key = v.cleanup();
                let key = v.dispose();
                self.contexts.remove(i);
                match self.active {
                    Some(a) => {
                        if a == id {
                            self.active = None;
                        }
                    },
                    None => {},
                }
                proof {
                    let pre = old(self).contexts@;
                    let s = self.contexts@;
                    let ii = i as int;
                    assert(s == pre.remove(ii));
                    assert forall|p: int, q: int| 0 <= p < q < s.len() implies s[p].id
                        != s[q].id by {
                        let p2: int = if p < ii { p } else { p + 1 };
                        let q2: int = if q < ii { q } else { q + 1 };
                        assert(s[p] == pre[p2] && s[q] == pre[q2]);
                        assert(pre[p2].id != pre[q2].id);
                    }
                    assert forall|t: int| 0 <= t < s.len() implies (#[trigger] s[t]).id != id by {
                        if t < ii {
                            assert(s[t] == pre[t]);
                        } else {
                            assert(s[t] == pre[t + 1]);
                            assert(pre[ii].id != pre[t + 1].id);
                        }
                    }
                    match self.active {
                        Some(a) => {
                            let w = choose|t: int| 0 <= t < pre.len() && pre[t].id == a;
                            assert(pre[w].id == a && a != id && w != ii);
                            if w < ii {
                                assert(s[w].id == a);
                            } else {
                                assert(s[w - 1] == pre[w]);
                            }
                            assert(seq_has_id(s, a));
                        },
                        None => {},
                    }
                    let wit = choose|t: int| 0 <= t < pre.len() && pre[t].id == id;
                    assert(wit == ii);
                }
                return Ok(key);
            }
            i = i + 1;
        }
        assert(!seq_has_id(self.contexts@, id));
        Err(ErrorKind::NotFound)
    }

    /// Makes the view with the given identifier active: pure bookkeeping, no
    /// side effect on the views. Fails with `NotFound` when the identifier is
    /// not live, and with `Validation` when the view has not been initialized
    /// yet — only initialized views can become active.
    pub fn set_active(&mut self, id: u128) -> (r: Result<(), ErrorKind>)
        requires
            old(self).wf(),
        ensures
            final(self).contexts@ == old(self).contexts@,
            final(self).wf(),
            !seq_has_id(old(self).contexts@, id) ==> r == Err::<(), ErrorKind>(
                ErrorKind::NotFound,
            ) && final(self).active == old(self).active,
            seq_has_id(old(self).contexts@, id) && id_inited(old(self).contexts@, id) ==> r
                == Ok::<(), ErrorKind>(()) && final(self).active == Some(id),
            seq_has_id(old(self).contexts@, id) && !id_inited(old(self).contexts@, id) ==> r
                == Err::<(), ErrorKind>(ErrorKind::Validation) && final(self).active == old(self).active,
    {
        let n: usize = self.contexts.len();
        let mut i: usize = 0;
        while i < n
            invariant
                i <= n,
                n == self.contexts@.len(),
                self.contexts@ == old(self).contexts@,
                self.active == old(self).active,
                old(self).wf(),
                forall|t: int| 0 <= t < i ==> (#[trigger] self.contexts@[t]).id != id,
            decreases n - i,
        {
            if self.contexts[i].id == id {
                if self.contexts[i].inited {
                    self.active = Some(id);
                    proof {
                        assert(seq_has_id(self.contexts@, id));
                        assert(id_inited(old(self).contexts@, id));
                    }
                    return Ok(());
                } else {
                    proof {
                        let s = self.contexts@;
                        let ii = i as int;
                        if id_inited(s, id) {
                            let w = choose|t: int| 0 <= t < s.len() && s[t].id == id && s[t].inited;
                            assert(s[w].id == s[ii].id);
                            assert(w == ii);
                        }
                    }
                    return Err(ErrorKind::Validation);
                }
            }
            i = i + 1;
        }
        assert(!seq_has_id(self.contexts@, id));
        Err(ErrorKind::NotFound)
    }

    /// Routes an attribute read to the active view. Fails with `NotFound`
    /// when no view is active: routing never falls through to a stale view.
    pub fn get_attr(&self, key: Vec<u8>) -> (r: Result<AttrAction, ErrorKind>)
        ensures
            self.active is None ==> r == Err::<AttrAction, ErrorKind>(ErrorKind::NotFound),
            (match self.active {
                Some(a) => (match r {
                    Ok(act) => act matches AttrAction::Read { view, key: k } && view == a && k@
                        == key@,
                    Err(_) => false,
                }),
                None => true,
            }),
    {
        match self.active {
            Some(a) => Ok(AttrAction::Read { view: a, key }),
            None => Err(ErrorKind::NotFound),
        }
    }

    /// Routes an attribute write to the active view. Fails with `NotFound`
    /// when no view is active.
    pub fn set_attr(&self, key: Vec<u8>, value: Vec<u8>) -> (r: Result<AttrAction, ErrorKind>)
        ensures
            self.active is None ==> r == Err::<AttrAction, ErrorKind>(ErrorKind::NotFound),
            (match self.active {
                Some(a) => (match r {
                    Ok(act) => act matches AttrAction::Write { view, key: k, value: w } && view == a
                        && k@ == key@ && w@ == value@,
                    Err(_) => false,
                }),
                None => true,
            }),
    {
        match self.active {
            Some(a) => Ok(AttrAction::Write { view: a, key, value }),
            None => Err(ErrorKind::NotFound),
        }
    }

    /// Routes an attribute deletion to the active view. Fails with `NotFound`
    /// when no view is active.
    pub fn del_attr(&self, key: Vec<u8>) -> (r: Result<AttrAction, ErrorKind>)
        ensures
            self.active is None ==> r == Err::<AttrAction, ErrorKind>(ErrorKind::NotFound),
            (match self.active {
                Some(a) => (match r {
                    Ok(act) => act matches AttrAction::Delete { view, key: k } && view == a && k@
                        == key@,
                    Err(_) => false,
                }),
                None => true,
            }),
    {
        match self.active {
            Some(a) => Ok(AttrAction::Delete { view: a, key }),
            None => Err(ErrorKind::NotFound),
        }
    }

    /// Serializes the whole manager state — every view's definition, in
    /// sequence order, plus the active identifier — into one base64 text.
    pub fn save_all(&self) -> (r: String)
        ensures
            r@ == self.blob_of(),
            b64_decode_of(r@) == Some(spec_encode(snapshot(self.contexts@), self.active)),
    {
        let mut recs: Vec<ViewRecord> = Vec::new();
        let n: usize = self.contexts.len();
        let mut i: usize = 0;
        while i < n
            invariant
                i <= n,
                n == self.contexts@.len(),
                recs@.len() == i,
                recs_model(recs@) == snapshot(self.contexts@).take(i as int),
            decreases n - i,
        {
            let v: ViewContext = self.contexts[i];
            let payload = v.save();
            recs.push(ViewRecord { kind: v.kind, id: v.id, payload });
            i = i + 1;
            assert(recs_model(recs@) =~= snapshot(self.contexts@).take(i as int));
        }
        assert(snapshot(self.contexts@).take(n as int) =~= snapshot(self.contexts@));
        let bytes = encode_state(&recs, &self.active);
        b64_encode(&bytes)
    }

    /// Restores the whole manager state from a base64 text produced by
    /// `save_all`: rebuilds every view through the factory, in the stored
    /// order, and restores the active relation; the views are not
    /// initialized. A text that does not decode to a complete, consistent
    /// state fails with `CorruptState`; a view definition invalid for its
    /// kind fails with `Validation`; either way the manager keeps its prior
    /// state untouched.
    pub fn load_all(&mut self, blob: &str) -> (r: Result<(), ErrorKind>)
        requires
            old(self).wf(),
        ensures
            final(self).wf(),
            r is Err ==> final(self).contexts@ == old(self).contexts@ && final(self).active == old(self).active,
            (match b64_decode_of(blob@) {
                None => r == Err::<(), ErrorKind>(ErrorKind::CorruptState),
                Some(bytes) => (match decode_state_spec(bytes) {
                    None => r == Err::<(), ErrorKind>(ErrorKind::CorruptState),
                    Some(st) => {
                        let ok_payloads = forall|k: int|
                            0 <= k < st.0.len() ==> parse_payload_spec(
                                (#[trigger] st.0[k]).2,
                            ) is Some;
                        let vs = restored_views(st.0);
                        let active_ok = match st.1 {
                            None => true,
                            Some(a) => seq_has_id(vs, a),
                        };
                        &&& (!ok_payloads ==> r == Err::<(), ErrorKind>(ErrorKind::Validation))
                        &&& (ok_payloads && !(unique_ids(vs) && active_ok) ==> r == Err::<
                            (),
                            ErrorKind,
                        >(ErrorKind::CorruptState))
                        &&& (ok_payloads && unique_ids(vs) && active_ok ==> r == Ok::<
                            (),
                            ErrorKind,
                        >(()) && final(self).contexts@ == vs && final(self).active == st.1)
                    },
                }),
            }),
    {
        let bytes = match b64_decode(blob) {
            Some(v) => v,
            None => {
                return Err(ErrorKind::CorruptState);
            },
        };
        let (recs, act) = match decode_state(&bytes) {
            Some(p) => p,
            None => {
                return Err(ErrorKind::CorruptState);
            },
        };
        let ghost ts = recs_model(recs@);
        let ghost dbytes = bytes@;
        proof {
            assert(b64_decode_of(blob@) == Some(dbytes));
            assert(decode_state_spec(dbytes) == Some((ts, act)));
        }
        let mut vs: Vec<ViewContext> = Vec::new();
        let n: usize = recs.len();
        let mut i: usize = 0;
        while i < n
            invariant
                i <= n,
                n == recs@.len(),
                ts == recs_model(recs@),
                vs@.len() == i,
                old(self).wf(),
                b64_decode_of(blob@) == Some(dbytes),
                decode_state_spec(dbytes) == Some((ts, act)),
                forall|t: int| 0 <= t < i ==> parse_payload_spec((#[trigger] ts[t]).2) is Some,
                forall|t: int| 0 <= t < i ==> #[trigger] vs@[t] == restored_views(ts)[t],
                self.contexts@ == old(self).contexts@,
                self.active == old(self).active,
            decreases n - i,
        {
            let built = build_view(recs[i].kind, Some(&recs[i].payload), recs[i].id);
            match built {
                Ok(v) => {
                    vs.push(v);
                },
                Err(e) => {
                    assert(parse_payload_spec(ts[i as int].2) is None);
                    assert(e == ErrorKind::Validation);
                    return Err(e);
                },
            }
            i = i + 1;
        }
        assert(vs@ =~= restored_views(ts));
        let m: usize = vs.len();
        let mut p: usize = 0;
        while p < m
            invariant
                p <= m,
                m == vs@.len(),
                old(self).wf(),
                b64_decode_of(blob@) == Some(dbytes),
                decode_state_spec(dbytes) == Some((ts, act)),
                vs@ == restored_views(ts),
                forall|t: int| 0 <= t < ts.len() ==> parse_payload_spec((#[trigger] ts[t]).2) is Some,
                forall|x: int, y: int| 0 <= x < y < p ==> vs@[x].id != vs@[y].id,
                self.contexts@ == old(self).contexts@,
                self.active == old(self).active,
            decreases m - p,
        {
            let mut q: usize = 0;
            while q < p
                invariant
                    q <= p < m,
                    m == vs@.len(),
                    old(self).wf(),
                    b64_decode_of(blob@) == Some(dbytes),
                    decode_state_spec(dbytes) == Some((ts, act)),
                    vs@ == restored_views(ts),
                    forall|t: int| 0 <= t < ts.len() ==> parse_payload_spec((#[trigger] ts[t]).2) is Some,
                    forall|x: int, y: int| 0 <= x < y < p ==> vs@[x].id != vs@[y].id,
                    forall|x: int| 0 <= x < q ==> (#[trigger] vs@[x]).id != vs@[p as int].id,
                    self.contexts@ == old(self).contexts@,
                    self.active == old(self).active,
                decreases p - q,
            {
                if vs[q].id == vs[p].id {
                    assert(!unique_ids(vs@));
                    return Err(ErrorKind::CorruptState);
                }
                q = q + 1;
            }
            p = p + 1;
            proof {
                assert forall|x: int, y: int| 0 <= x < y < p implies vs@[x].id != vs@[y].id by {
                    if y == p - 1 {
                        assert(vs@[x].id != vs@[p - 1].id);
                    }
                }
            }
        }
        assert(unique_ids(vs@));
        match act {
            None => {},
            Some(a) => {
                let mut f: usize = 0;
                let mut found = false;
                while f < m
                    invariant
                        f <= m,
                        m == vs@.len(),
                        act == Some(a),
                        old(self).wf(),
                        b64_decode_of(blob@) == Some(dbytes),
                        decode_state_spec(dbytes) == Some((ts, act)),
                        vs@ == restored_views(ts),
                        forall|t: int| 0 <= t < ts.len() ==> parse_payload_spec((#[trigger] ts[t]).2) is Some,
                        unique_ids(vs@),
                        !found ==> forall|t: int| 0 <= t < f ==> (#[trigger] vs@[t]).id != a,
                        found ==> seq_has_id(vs@, a),
                        self.contexts@ == old(self).contexts@,
                        self.active == old(self).active,
                    decreases m - f,
                {
                    if vs[f].id == a {
                        found = true;
                        assert(seq_has_id(vs@, a));
                    }
                    f = f + 1;
                }
                if !found {
                    assert(!seq_has_id(vs@, a));
                    return Err(ErrorKind::CorruptState);
                }
            },
        }
        self.contexts = vs;
        self.active = act;
        Ok(())
    }
}

/// Law: in a well-formed manager no two live views share an identifier.
/// Every operation requires and re-establishes well-formedness, so this holds
/// after any sequence of `add_view` and `remove_view` calls.
pub proof fn lemma_live_ids_unique(m: ViewContextManager)
    requires
        m.wf(),
    ensures
        forall|i: int, j: int|
            0 <= i < j < m.contexts@.len() ==> m.contexts@[i].id != m.contexts@[j].id,
{
}

/// Law: removing the view that carries an identifier leaves no live view with
/// that identifier, so a subsequent `set_active` on the same identifier is
/// refused as `NotFound` by `set_active`'s contract.
pub proof fn lemma_removed_id_not_found(s: Seq<ViewContext>, i: int, id: u128)
    requires
        unique_ids(s),
        0 <= i < s.len(),
        s[i].id == id,
    ensures
        !seq_has_id(s.remove(i), id),
{
    let s2 = s.remove(i);
    assert forall|t: int| 0 <= t < s2.len() implies (#[trigger] s2[t]).id != id by {
        if t < i {
            assert(s2[t] == s[t]);
        } else {
            assert(s2[t] == s[t + 1]);
            assert(s[i].id != s[t + 1].id);
        }
    }
}

/// Law: the save/load cycle is lossless and idempotent at the byte level.
/// The binary image of a manager decodes back to the very snapshot that
/// produced it; every view definition in the snapshot restores to the
/// identifier it was saved with; and a manager whose views are rebuilt from
/// that snapshot — as `load_all` builds them — saves to a byte-identical
/// text.
pub proof fn lemma_save_load_save(m: ViewContextManager, m2: ViewContextManager)
    requires
        m.wf(),
        m.contexts@.len() <= u64::MAX,
        m2.contexts@ == restored_views(snapshot(m.contexts@)),
        m2.active == m.active,
    ensures
        decode_state_spec(spec_encode(snapshot(m.contexts@), m.active)) == Some(
            (snapshot(m.contexts@), m.active),
        ),
        forall|k: int|
            0 <= k < m.contexts@.len() ==> parse_payload_spec(
                (#[trigger] snapshot(m.contexts@)[k]).2,
            ) == Some(m.contexts@[k].id),
        m2.blob_of() == m.blob_of(),
{
    let ts = snapshot(m.contexts@);
    assert forall|k: int| 0 <= k < ts.len() implies (#[trigger] ts[k]).2.len() <= u64::MAX by {
        assert(ts[k].2 == payload_bytes(m.contexts@[k].id));
    }
    crate::codec::lemma_codec_round_trip(ts, m.active);
    assert forall|k: int| 0 <= k < m.contexts@.len() implies parse_payload_spec(
        (#[trigger] snapshot(m.contexts@)[k]).2,
    ) == Some(m.contexts@[k].id) by {
        crate::views::lemma_payload_round_trip(m.contexts@[k].id);
    }
    assert forall|k: int| 0 <= k < ts.len() implies #[trigger] snapshot(m2.contexts@)[k]
        == ts[k] by {
        crate::views::lemma_payload_round_trip(m.contexts@[k].id);
        assert(m2.contexts@[k] == restored_views(ts)[k]);
    }
    assert(snapshot(m2.contexts@) =~= ts);
    assert(m2.blob_of() == m.blob_of());
}

} // verus!
