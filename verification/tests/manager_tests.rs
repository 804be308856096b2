use view_context::errors::ErrorKind;
use view_context::manager::{AttrAction, ViewContextManager};
use view_context::views::{build_view, mk_synth_designer, ViewContext, ViewKind};

fn hyphenated(id: u128) -> String {
    let s = format!("{:032x}", id);
    format!("{}-{}-{}-{}-{}", &s[0..8], &s[8..12], &s[12..16], &s[16..20], &s[20..32])
}

fn payload(id: u128) -> Vec<u8> {
    format!("{{\"uuid\":\"{}\"}}", hyphenated(id)).into_bytes()
}

fn manager_with(views: &[(ViewKind, u128)]) -> ViewContextManager {
    let mut m = ViewContextManager::new();
    for (k, id) in views {
        let dup = m.contexts.iter().any(|v| v.id == *id);
        assert!(!dup);
        m.add_view(ViewContext::new(*k, *id));
    }
    m
}

#[test]
fn save_produces_exact_json_definition() {
    let v = ViewContext::new(ViewKind::SynthDesigner, 42);
    assert_eq!(v.save(), b"{\"uuid\":\"00000000-0000-0000-0000-00000000002a\"}".to_vec());
}

#[test]
fn state_key_is_kind_tag_plus_identifier() {
    let v = ViewContext::new(ViewKind::SynthDesigner, 42);
    assert_eq!(
        v.get_state_key(),
        b"synth_designer00000000-0000-0000-0000-00000000002a".to_vec()
    );
    let w = ViewContext::new(ViewKind::MidiEditor, 0xdead_beef);
    assert_eq!(
        w.get_state_key(),
        b"midi_editor00000000-0000-0000-0000-0000deadbeef".to_vec()
    );
}

#[test]
fn factory_restores_identifier_from_definition() {
    let def = payload(42);
    let restored = build_view(ViewKind::MidiEditor, Some(&def), 7).unwrap();
    assert_eq!(restored.id, 42);
    assert_eq!(restored.kind, ViewKind::MidiEditor);
    assert!(!restored.inited);
}

#[test]
fn factory_accepts_uppercase_hex() {
    let def = b"{\"uuid\":\"00000000-0000-0000-0000-0000DEADBEEF\"}".to_vec();
    let restored = build_view(ViewKind::MidiEditor, Some(&def), 7).unwrap();
    assert_eq!(restored.id, 0xdead_beef);
}

#[test]
fn factory_rejects_malformed_definition() {
    let def = b"nonsense".to_vec();
    let r = build_view(ViewKind::SynthDesigner, Some(&def), 7);
    assert_eq!(r, Err(ErrorKind::Validation));
    let def2 = b"{\"uuid\":\"00000000-0000-0000-0000-00000000002g\"}".to_vec();
    assert_eq!(build_view(ViewKind::SynthDesigner, Some(&def2), 7), Err(ErrorKind::Validation));
}

#[test]
fn mk_synth_designer_builds_fresh_and_restores() {
    let fresh = mk_synth_designer(None, 9).unwrap();
    assert_eq!(fresh.kind, ViewKind::SynthDesigner);
    assert_eq!(fresh.id, 9);
    let def = payload(13);
    let restored = mk_synth_designer(Some(&def), 9).unwrap();
    assert_eq!(restored.id, 13);
}

#[test]
fn init_with_zero_views_leaves_active_undefined() {
    let mut m = ViewContextManager::new();
    let keys = m.init();
    assert!(keys.is_empty());
    assert_eq!(m.active, None);
}

#[test]
fn init_initializes_every_view_in_insertion_order() {
    let mut m = manager_with(&[(ViewKind::MidiEditor, 1), (ViewKind::SynthDesigner, 2)]);
    let keys = m.init();
    assert_eq!(keys.len(), 2);
    assert_eq!(keys[0], format!("midi_editor{}", hyphenated(1)).into_bytes());
    assert_eq!(keys[1], format!("synth_designer{}", hyphenated(2)).into_bytes());
    assert!(m.contexts.iter().all(|v| v.inited));
    assert_eq!(m.active, Some(1));
}

#[test]
fn save_load_save_is_byte_identical() {
    let mut m = manager_with(&[(ViewKind::MidiEditor, 1), (ViewKind::SynthDesigner, 2)]);
    m.init();
    let first = m.save_all();
    let mut m2 = ViewContextManager::new();
    assert_eq!(m2.load_all(&first), Ok(()));
    assert_eq!(m2.contexts.len(), 2);
    assert_eq!(m2.contexts[0].kind, ViewKind::MidiEditor);
    assert_eq!(m2.contexts[0].id, 1);
    assert_eq!(m2.contexts[1].kind, ViewKind::SynthDesigner);
    assert_eq!(m2.contexts[1].id, 2);
    assert_eq!(m2.active, Some(1));
    let second = m2.save_all();
    assert_eq!(first, second);
}

fn encoded_blob(views: &[(u8, u128, Vec<u8>)], active: Option<u128>) -> Vec<u8> {
    let mut out: Vec<u8> = Vec::new();
    out.extend_from_slice(&(views.len() as u64).to_le_bytes());
    for (kb, id, pl) in views {
        out.push(*kb);
        out.extend_from_slice(&id.to_le_bytes());
        out.extend_from_slice(&(pl.len() as u64).to_le_bytes());
        out.extend_from_slice(pl);
    }
    match active {
        None => out.push(0),
        Some(a) => {
            out.push(1);
            out.extend_from_slice(&a.to_le_bytes());
        },
    }
    out
}

fn b64(bytes: &[u8]) -> String {
    base64::Engine::encode(&base64::engine::general_purpose::STANDARD, bytes)
}

#[test]
fn save_all_matches_documented_layout() {
    let mut m = manager_with(&[(ViewKind::MidiEditor, 1), (ViewKind::SynthDesigner, 2)]);
    m.init();
    let expected = b64(&encoded_blob(
        &[(0, 1, payload(1)), (1, 2, payload(2))],
        Some(1),
    ));
    assert_eq!(m.save_all(), expected);
}

#[test]
fn load_all_accepts_handwritten_blob() {
    let blob = b64(&encoded_blob(&[(1, 5, payload(5))], None));
    let mut m = ViewContextManager::new();
    assert_eq!(m.load_all(&blob), Ok(()));
    assert_eq!(m.contexts.len(), 1);
    assert_eq!(m.contexts[0].kind, ViewKind::SynthDesigner);
    assert_eq!(m.contexts[0].id, 5);
    assert_eq!(m.active, None);
}

#[test]
fn load_all_rejects_corrupt_text_and_keeps_state() {
    let mut m = manager_with(&[(ViewKind::MidiEditor, 1)]);
    m.init();
    assert_eq!(m.load_all("!!!not base64!!!"), Err(ErrorKind::CorruptState));
    assert_eq!(m.load_all(&b64(b"garbage bytes")), Err(ErrorKind::CorruptState));
    let truncated = {
        let full = encoded_blob(&[(0, 1, payload(1))], Some(1));
        b64(&full[..full.len() - 3])
    };
    assert_eq!(m.load_all(&truncated), Err(ErrorKind::CorruptState));
    assert_eq!(m.contexts.len(), 1);
    assert_eq!(m.contexts[0].id, 1);
    assert_eq!(m.active, Some(1));
}

#[test]
fn load_all_rejects_invalid_definition_as_validation() {
    let blob = b64(&encoded_blob(&[(0, 5, b"not a definition".to_vec())], None));
    let mut m = ViewContextManager::new();
    assert_eq!(m.load_all(&blob), Err(ErrorKind::Validation));
    assert!(m.contexts.is_empty());
}

#[test]
fn load_all_rejects_duplicate_identifiers() {
    let blob = b64(&encoded_blob(&[(0, 5, payload(5)), (1, 5, payload(5))], None));
    let mut m = ViewContextManager::new();
    assert_eq!(m.load_all(&blob), Err(ErrorKind::CorruptState));
}

#[test]
fn load_all_rejects_unknown_active_identifier() {
    let blob = b64(&encoded_blob(&[(0, 5, payload(5))], Some(6)));
    let mut m = ViewContextManager::new();
    assert_eq!(m.load_all(&blob), Err(ErrorKind::CorruptState));
}

#[test]
fn removed_identifier_cannot_be_activated() {
    let mut m = manager_with(&[(ViewKind::MidiEditor, 1), (ViewKind::SynthDesigner, 2)]);
    m.init();
    let key = m.remove_view(2).unwrap();
    assert_eq!(key, format!("synth_designer{}", hyphenated(2)).into_bytes());
    assert_eq!(m.set_active(2), Err(ErrorKind::NotFound));
    assert_eq!(m.remove_view(2), Err(ErrorKind::NotFound));
}

#[test]
fn removing_active_view_clears_routing() {
    let mut m = manager_with(&[(ViewKind::MidiEditor, 1), (ViewKind::SynthDesigner, 2)]);
    m.init();
    assert_eq!(m.active, Some(1));
    m.remove_view(1).unwrap();
    assert_eq!(m.active, None);
    assert_eq!(m.get_attr(b"x".to_vec()), Err(ErrorKind::NotFound));
    assert_eq!(m.set_attr(b"x".to_vec(), b"y".to_vec()), Err(ErrorKind::NotFound));
    assert_eq!(m.del_attr(b"x".to_vec()), Err(ErrorKind::NotFound));
}

#[test]
fn attribute_routing_targets_active_view() {
    let mut m = manager_with(&[(ViewKind::MidiEditor, 1), (ViewKind::SynthDesigner, 2)]);
    m.init();
    m.set_active(2).unwrap();
    match m.get_attr(b"color".to_vec()).unwrap() {
        AttrAction::Read { view, key } => {
            assert_eq!(view, 2);
            assert_eq!(key, b"color".to_vec());
        },
        other => panic!("unexpected action {:?}", other),
    }
    match m.set_attr(b"color".to_vec(), b"red".to_vec()).unwrap() {
        AttrAction::Write { view, key, value } => {
            assert_eq!(view, 2);
            assert_eq!(key, b"color".to_vec());
            assert_eq!(value, b"red".to_vec());
        },
        other => panic!("unexpected action {:?}", other),
    }
    match m.del_attr(b"color".to_vec()).unwrap() {
        AttrAction::Delete { view, key } => {
            assert_eq!(view, 2);
            assert_eq!(key, b"color".to_vec());
        },
        other => panic!("unexpected action {:?}", other),
    }
}

#[test]
fn set_active_demands_initialized_view() {
    let mut m = manager_with(&[(ViewKind::MidiEditor, 1)]);
    m.init();
    m.add_view(ViewContext::new(ViewKind::SynthDesigner, 2));
    assert_eq!(m.set_active(2), Err(ErrorKind::Validation));
    assert_eq!(m.active, Some(1));
    assert_eq!(m.set_active(3), Err(ErrorKind::NotFound));
    assert_eq!(m.set_active(1), Ok(()));
    assert_eq!(m.active, Some(1));
}

#[test]
fn identifiers_stay_unique_across_operations() {
    let mut m = manager_with(&[
        (ViewKind::MidiEditor, 1),
        (ViewKind::SynthDesigner, 2),
        (ViewKind::MidiEditor, 3),
    ]);
    m.init();
    m.remove_view(2).unwrap();
    m.add_view(ViewContext::new(ViewKind::SynthDesigner, 4));
    m.remove_view(1).unwrap();
    m.add_view(ViewContext::new(ViewKind::MidiEditor, 2));
    for i in 0..m.contexts.len() {
        for j in (i + 1)..m.contexts.len() {
            assert_ne!(m.contexts[i].id, m.contexts[j].id);
        }
    }
}

#[test]
fn lifecycle_methods_share_the_storage_key() {
    let mut v = ViewContext::new(ViewKind::MidiEditor, 7);
    assert!(!v.inited);
    let key = v.init();
    assert!(v.inited);
    assert_eq!(key, v.get_state_key());
    assert_eq!(v.cleanup(), key);
    assert_eq!(v.dispose(), key);
}

#[test]
fn load_all_replaces_prior_views_on_success() {
    let mut m = manager_with(&[(ViewKind::MidiEditor, 1), (ViewKind::SynthDesigner, 2)]);
    m.init();
    let blob = b64(&encoded_blob(&[(1, 9, payload(9))], Some(9)));
    assert_eq!(m.load_all(&blob), Ok(()));
    assert_eq!(m.contexts.len(), 1);
    assert_eq!(m.contexts[0].id, 9);
    assert!(!m.contexts[0].inited);
    assert_eq!(m.active, Some(9));
}

#[test]
fn full_identifier_width_round_trips() {
    let big: u128 = 0xfedc_ba98_7654_3210_0123_4567_89ab_cdef;
    let mut m = manager_with(&[(ViewKind::SynthDesigner, big)]);
    m.init();
    let blob = m.save_all();
    let mut m2 = ViewContextManager::new();
    assert_eq!(m2.load_all(&blob), Ok(()));
    assert_eq!(m2.contexts[0].id, big);
    assert_eq!(m2.active, Some(big));
    assert_eq!(m2.save_all(), blob);
}
