//! Views: independently stateful editor surfaces behind a uniform lifecycle
//! contract.
//!
//! Every view carries a globally unique 128-bit identifier and a kind tag that
//! selects its concrete variant. A view's persisted definition is the JSON
//! text `{"uuid":"<hyphenated id>"}`; its storage key is its kind tag followed
//! by the hyphenated identifier.

use vstd::prelude::*;

use crate::errors::ErrorKind;
use crate::uuid_text::{format_uuid, parse_uuid_at, parse_uuid_spec};

verus! {

/// The concrete view variants the factory can build.
#[derive(Clone, Copy, Debug, PartialEq, Eq, Structural)]
pub enum ViewKind {
    MidiEditor,
    SynthDesigner,
}

/// The ASCII bytes of a kind's tag: `midi_editor` or `synth_designer`.
pub open spec fn kind_tag(k: ViewKind) -> Seq<u8> {
    match k {
        ViewKind::MidiEditor => seq![109u8, 105, 100, 105, 95, 101, 100, 105, 116, 111, 114],
        ViewKind::SynthDesigner => seq![115u8, 121, 110, 116, 104, 95, 100, 101, 115, 105, 103, 110, 101, 114],
    }
}

/// The byte that stands for a kind inside the binary encoding.
pub open spec fn kind_byte(k: ViewKind) -> u8 {
    match k {
        ViewKind::MidiEditor => 0,
        ViewKind::SynthDesigner => 1,
    }
}

/// Which kind a byte of the binary encoding denotes.
pub open spec fn kind_of_byte(b: u8) -> Option<ViewKind> {
    if b == 0 {
        Some(ViewKind::MidiEditor)
    } else if b == 1 {
        Some(ViewKind::SynthDesigner)
    } else {
        None
    }
}

/// The ASCII bytes of `{"uuid":"`.
pub open spec fn json_prefix() -> Seq<u8> {
    seq![123u8, 34, 117, 117, 105, 100, 34, 58, 34]
}

/// The ASCII bytes of `"}`.
pub open spec fn json_suffix() -> Seq<u8> {
    seq![34u8, 125]
}

/// The serialized definition of a view with identifier `id`: the JSON text
/// `{"uuid":"<hyphenated id>"}`, 47 bytes in all.
pub open spec fn payload_bytes(id: u128) -> Seq<u8> {
    json_prefix() + crate::uuid_text::uuid_bytes(id) + json_suffix()
}

/// What parsing a stored definition yields: the identifier it holds, or
/// nothing when the bytes do not have the definition shape.
pub open spec fn parse_payload_spec(s: Seq<u8>) -> Option<u128> {
    if s.len() == 47 && s.subrange(0, 9) == json_prefix() && s[45] == 34 && s[46] == 125 {
        parse_uuid_spec(s.subrange(9, 45))
    } else {
        None
    }
}

/// The storage key of a view: its kind tag followed by the hyphenated
/// identifier.
pub open spec fn state_key_bytes(k: ViewKind, id: u128) -> Seq<u8> {
    kind_tag(k) + crate::uuid_text::uuid_bytes(id)
}

/// Renders a kind's tag.
pub fn kind_tag_bytes(k: ViewKind) -> (r: Vec<u8>)
    ensures
        r@ == kind_tag(k),
{
    let mut out: Vec<u8> = Vec::new();
    match k {
        ViewKind::MidiEditor => {
            out.push(109);
            out.push(105);
            out.push(100);
            out.push(105);
            out.push(95);
            out.push(101);
            out.push(100);
            out.push(105);
            out.push(116);
            out.push(111);
            out.push(114);
        },
        ViewKind::SynthDesigner => {
            out.push(115);
            out.push(121);
            out.push(110);
            out.push(116);
            out.push(104);
            out.push(95);
            out.push(100);
            out.push(101);
            out.push(115);
            out.push(105);
            out.push(103);
            out.push(110);
            out.push(101);
            out.push(114);
        },
    }
    assert(out@ =~= kind_tag(k));
    out
}

/// Builds the serialized definition of a view with identifier `id`.
pub fn emit_payload(id: u128) -> (r: Vec<u8>)
    ensures
        r@ == payload_bytes(id),
{
    let mut out: Vec<u8> = Vec::new();
    out.push(123);
    out.push(34);
    out.push(117);
    out.push(117);
    out.push(105);
    out.push(100);
    out.push(34);
    out.push(58);
    out.push(34);
    let mut mid = format_uuid(id);
    out.append(&mut mid);
    out.push(34);
    out.push(125);
    assert(out@ =~= payload_bytes(id));
    out
}

/// Parses a stored view definition back into the identifier it holds.
pub fn parse_payload(d: &Vec<u8>) -> (r: Option<u128>)
    ensures
        r == parse_payload_spec(d@),
{
    if d.len() != 47 {
        return None;
    }
    let shape_ok = d[0] == 123 && d[1] == 34 && d[2] == 117 && d[3] == 117 && d[4] == 105
        && d[5] == 100 && d[6] == 34 && d[7] == 58 && d[8] == 34 && d[45] == 34 && d[46] == 125;
    if !shape_ok {
        assert(d@.subrange(0, 9) == json_prefix() && d@[45] == 34 && d@[46] == 125 ==> false) by {
            if d@.subrange(0, 9) == json_prefix() {
                assert(forall|i: int| 0 <= i < 9 ==> d@[i] == #[trigger] json_prefix()[i]);
            }
        }
        return None;
    }
    assert(d@.subrange(0, 9) =~= json_prefix());
    parse_uuid_at(d, 9)
}

/// The identifier a view definition restores to is the one it was saved with.
pub proof fn lemma_payload_round_trip(id: u128)
    ensures
        parse_payload_spec(payload_bytes(id)) == Some(id),
{
    crate::uuid_text::lemma_uuid_round_trip(id);
    let p = payload_bytes(id);
    assert(p.len() == 47);
    assert(p.subrange(0, 9) =~= json_prefix());
    assert(p.subrange(9, 45) =~= crate::uuid_text::uuid_bytes(id));
    assert(p[45] == 34);
    assert(p[46] == 125);
}

/// A single editing surface. Its identifier is stable for its lifetime and
/// namespaces its persisted state; `inited` records whether the global
/// initialization pass has reached it.
#[derive(Clone, Copy, Debug, PartialEq, Eq, Structural)]
pub struct ViewContext {
    pub kind: ViewKind,
    pub id: u128,
    pub inited: bool,
}

impl ViewContext {
    /// A fresh, not yet initialized view of the given kind and identifier.
    pub fn new(kind: ViewKind, id: u128) -> (v: ViewContext)
        ensures
            v == (ViewContext { kind, id, inited: false }),
    {
        ViewContext { kind, id, inited: false }
    }

    /// The storage key under which this view persists its state.
    pub fn get_state_key(&self) -> (r: Vec<u8>)
        ensures
            r@ == state_key_bytes(self.kind, self.id),
    {
        let mut out = kind_tag_bytes(self.kind);
        let mut mid = format_uuid(self.id);
        out.append(&mut mid);
        assert(out@ =~= state_key_bytes(self.kind, self.id));
        out
    }

    /// Marks the view initialized and hands back the storage key whose
    /// renderer-side resources the host must now allocate. Called exactly once
    /// per view instance.
    pub fn init(&mut self) -> (r: Vec<u8>)
        requires
            !old(self).inited,
        ensures
            final(self).kind == old(self).kind,
            final(self).id == old(self).id,
            final(self).inited,
            r@ == state_key_bytes(old(self).kind, old(self).id),
    {
        self.inited = true;
        self.get_state_key()
    }

    /// The storage key whose renderer-side resources the host must release;
    /// the view's in-memory state is untouched.
    pub fn cleanup(&self) -> (r: Vec<u8>)
        ensures
            r@ == state_key_bytes(self.kind, self.id),
    {
        self.get_state_key()
    }

    /// The storage key the host must delete: disposing a view permanently
    /// releases its persisted state.
    pub fn dispose(&self) -> (r: Vec<u8>)
        ensures
            r@ == state_key_bytes(self.kind, self.id),
    {
        self.get_state_key()
    }

    /// The serialized definition of this view, sufficient to reconstruct it
    /// through the factory.
    pub fn save(&self) -> (r: Vec<u8>)
        ensures
            r@ == payload_bytes(self.id),
    {
        emit_payload(self.id)
    }
}

/// The view factory. With no definition it builds a fresh view under `id`;
/// with a stored definition it restores the view the definition describes,
/// and a malformed definition is a fatal construction error for that view.
pub fn build_view(kind: ViewKind, definition: Option<&Vec<u8>>, id: u128) -> (r: Result<
    ViewContext,
    ErrorKind,
>)
    ensures
        (match definition {
            None => r == Ok::<ViewContext, ErrorKind>(ViewContext { kind, id, inited: false }),
            Some(d) => (match parse_payload_spec(d@) {
                Some(pid) => r == Ok::<ViewContext, ErrorKind>(
                    ViewContext { kind, id: pid, inited: false },
                ),
                None => r == Err::<ViewContext, ErrorKind>(ErrorKind::Validation),
            }),
        }),
{
    match definition {
        None => Ok(ViewContext::new(kind, id)),
        Some(d) => {
            match parse_payload(d) {
                Some(pid) => Ok(ViewContext::new(kind, pid)),
                None => Err(ErrorKind::Validation),
            }
        },
    }
}

/// Builds or restores a synthesizer-designer view.
pub fn mk_synth_designer(definition: Option<&Vec<u8>>, id: u128) -> (r: Result<
    ViewContext,
    ErrorKind,
>)
    ensures
        (match definition {
            None => r == Ok::<ViewContext, ErrorKind>(
                ViewContext { kind: ViewKind::SynthDesigner, id, inited: false },
            ),
            Some(d) => (match parse_payload_spec(d@) {
                Some(pid) => r == Ok::<ViewContext, ErrorKind>(
                    ViewContext { kind: ViewKind::SynthDesigner, id: pid, inited: false },
                ),
                None => r == Err::<ViewContext, ErrorKind>(ErrorKind::Validation),
            }),
        }),
{
    build_view(ViewKind::SynthDesigner, definition, id)
}

} // verus!
