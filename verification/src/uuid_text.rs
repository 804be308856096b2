//! The 36-byte hyphenated text form of a 128-bit view identifier.
//!
//! A view identifier is rendered as 32 lowercase hexadecimal digits in the
//! 8-4-4-4-12 layout, most significant digit first. Parsing accepts digits of
//! either case and is proved to invert formatting.

use vstd::prelude::*;

verus! {

/// ASCII code of the lowercase hexadecimal digit for a value below 16.
pub open spec fn hex_digit(d: u8) -> u8 {
    if d < 10 { (48 + d) as u8 } else { (87 + d) as u8 }
}

/// Whether a byte is an ASCII hexadecimal digit of either case.
pub open spec fn is_hex_byte(b: u8) -> bool {
    (48 <= b && b <= 57) || (97 <= b && b <= 102) || (65 <= b && b <= 70)
}

/// Numeric value of an ASCII hexadecimal digit.
pub open spec fn hex_val(b: u8) -> u8 {
    if b <= 57 { (b - 48) as u8 } else if b >= 97 { (b - 87) as u8 } else { (b - 55) as u8 }
}

/// The four byte positions that hold a hyphen in the hyphenated form.
pub open spec fn is_hyphen_idx(i: int) -> bool {
    i == 8 || i == 13 || i == 18 || i == 23
}

/// How many hyphens stand before byte position `i` of the hyphenated form.
pub open spec fn hyphens_before(i: int) -> int {
    if i <= 8 { 0 } else if i <= 13 { 1 } else if i <= 18 { 2 } else if i <= 23 { 3 } else { 4 }
}

/// The `j`-th hexadecimal digit of an identifier, most significant first.
pub open spec fn nibble(id: u128, j: int) -> u8 {
    ((id >> ((4 * (31 - j)) as u32)) & 0xf) as u8
}

/// Byte position of digit `j` within the hyphenated form.
pub open spec fn digit_pos(j: int) -> int {
    if j < 8 { j } else if j < 12 { j + 1 } else if j < 16 { j + 2 } else if j < 20 { j + 3 } else { j + 4 }
}

/// The canonical 36-byte lowercase hyphenated text of an identifier.
pub open spec fn uuid_bytes(id: u128) -> Seq<u8> {
    Seq::new(36, |i: int| if is_hyphen_idx(i) { 45u8 } else { hex_digit(nibble(id, i - hyphens_before(i))) })
}

/// Whether byte `i` of `s` is admissible for the hyphenated identifier shape.
pub open spec fn uuid_char_ok(s: Seq<u8>, i: int) -> bool {
    if is_hyphen_idx(i) { s[i] == 45 } else { is_hex_byte(s[i]) }
}

/// Whether `s` is a hyphenated identifier text: 36 bytes, hyphens in the four
/// fixed positions, hexadecimal digits everywhere else.
pub open spec fn is_uuid_text(s: Seq<u8>) -> bool {
    s.len() == 36 && forall|i: int| 0 <= i < 36 ==> #[trigger] uuid_char_ok(s, i)
}

/// Value of the first `k` digits of a hyphenated identifier text.
pub open spec fn uuid_val_prefix(s: Seq<u8>, k: int) -> u128
    decreases k,
{
    if k <= 0 {
        0
    } else {
        (uuid_val_prefix(s, k - 1) << 4u32) | (hex_val(s[digit_pos(k - 1)]) as u128)
    }
}

/// The identifier value held by a 36-byte hyphenated text.
pub open spec fn uuid_val(s: Seq<u8>) -> u128 {
    uuid_val_prefix(s, 32)
}

/// What parsing yields on any 36-byte slice.
pub open spec fn parse_uuid_spec(s: Seq<u8>) -> Option<u128> {
    if is_uuid_text(s) { Some(uuid_val(s)) } else { None }
}

/// Renders an identifier as its canonical hyphenated text.
pub fn format_uuid(id: u128) -> (r: Vec<u8>)
    ensures
        r@ == uuid_bytes(id),
{
    let mut out: Vec<u8> = Vec::new();
    let mut i: usize = 0;
    while i < 36
        invariant
            i <= 36,
            out@ == uuid_bytes(id).take(i as int),
        decreases 36 - i,
    {
        if i == 8 || i == 13 || i == 18 || i == 23 {
            out.push(45u8);
        } else {
            let h: usize = if i < 8 { 0 } else if i < 13 { 1 } else if i < 18 { 2 } else if i < 23 { 3 } else { 4 };
            let j: usize = i - h;
            let shift: u32 = (4 * (31 - j)) as u32;
            let nib: u8 = ((id >> shift) & 0xf) as u8;
            proof {
                assert(((id >> shift) & 0xf) < 16) by (bit_vector);
                assert(j == i - hyphens_before(i as int));
                assert(nib == nibble(id, j as int));
            }
            let d: u8 = if nib < 10 { 48 + nib } else { 87 + nib };
            out.push(d);
        }
        i = i + 1;
        assert(out@ =~= uuid_bytes(id).take(i as int));
    }
    assert(out@ =~= uuid_bytes(id));
    out
}

/// Parses the 36 bytes of `b` starting at `off` as a hyphenated identifier.
pub fn parse_uuid_at(b: &Vec<u8>, off: usize) -> (r: Option<u128>)
    requires
        off + 36 <= b@.len(),
    ensures
        r == parse_uuid_spec(b@.subrange(off as int, off as int + 36)),
{
    let ghost s = b@.subrange(off as int, off as int + 36);
    let blen: usize = b.len();
    let mut i: usize = 0;
    while i < 36
        invariant
            i <= 36,
            off + 36 <= blen,
            blen == b@.len(),
            s == b@.subrange(off as int, off as int + 36),
            forall|t: int| 0 <= t < i ==> #[trigger] uuid_char_ok(s, t),
        decreases 36 - i,
    {
        let c: u8 = b[off + i];
        assert(c == s[i as int]);
        if i == 8 || i == 13 || i == 18 || i == 23 {
            if c != 45 {
                assert(!uuid_char_ok(s, i as int));
                return None;
            }
        } else {
            let ok = (48 <= c && c <= 57) || (97 <= c && c <= 102) || (65 <= c && c <= 70);
            if !ok {
                assert(!uuid_char_ok(s, i as int));
                return None;
            }
        }
        i = i + 1;
    }
    assert(is_uuid_text(s));
    let mut acc: u128 = 0;
    let mut j: usize = 0;
    while j < 32
        invariant
            j <= 32,
            off + 36 <= blen,
            blen == b@.len(),
            s == b@.subrange(off as int, off as int + 36),
            is_uuid_text(s),
            acc == uuid_val_prefix(s, j as int),
        decreases 32 - j,
    {
        let p: usize = if j < 8 { j } else if j < 12 { j + 1 } else if j < 16 { j + 2 } else if j < 20 { j + 3 } else { j + 4 };
        assert(p == digit_pos(j as int));
        let c: u8 = b[off + p];
        assert(c == s[digit_pos(j as int)]);
        assert(uuid_char_ok(s, digit_pos(j as int)));
        let v: u8 = if c <= 57 { c - 48 } else if c >= 97 { c - 87 } else { c - 55 };
        assert(v == hex_val(c));
        acc = (acc << 4u32) | (v as u128);
        j = j + 1;
    }
    Some(acc)
}

/// Every digit of an identifier is a value below 16.
proof fn lemma_nibble_bound(id: u128, j: int)
    requires
        0 <= j < 32,
    ensures
        nibble(id, j) < 16,
{
    let s: u32 = (4 * (31 - j)) as u32;
    assert(((id >> s) & 0xf) < 16) by (bit_vector);
    assert(nibble(id, j) == (((id >> s) & 0xf)) as u8);
}

/// The first `k` digits of an identifier's canonical text fold back to the
/// top `4 * k` bits of the identifier.
proof fn lemma_uuid_prefix(id: u128, k: int)
    requires
        0 <= k <= 32,
    ensures
        uuid_val_prefix(uuid_bytes(id), k) == if k == 0 { 0u128 } else { id >> ((4 * (32 - k)) as u32) },
    decreases k,
{
    let ub = uuid_bytes(id);
    if k == 0 {
    } else if k == 1 {
        lemma_nibble_bound(id, 0);
        assert(uuid_val_prefix(ub, 0) == 0);
        assert(uuid_val_prefix(ub, 1) == (uuid_val_prefix(ub, 0) << 4u32) | (hex_val(ub[digit_pos(0)]) as u128));
        assert(ub[digit_pos(0)] == hex_digit(nibble(id, 0)));
        assert(hex_val(hex_digit(nibble(id, 0))) == nibble(id, 0));
        assert(nibble(id, 0) == ((id >> ((4 * (31 - 0)) as u32)) & 0xf) as u8);
        assert((0u128 << 4u32) | (((((id >> 124u32) & 0xf) as u8)) as u128) == id >> 124u32) by (bit_vector);
        assert(((4 * (31 - 0)) as u32) == 124u32);
        assert(((4 * (32 - 1)) as u32) == 124u32);
    } else {
        lemma_uuid_prefix(id, k - 1);
        lemma_nibble_bound(id, k - 1);
        let s: u32 = (4 * (32 - k)) as u32;
        assert(uuid_val_prefix(ub, k) == (uuid_val_prefix(ub, k - 1) << 4u32) | (hex_val(ub[digit_pos(k - 1)]) as u128));
        assert(ub[digit_pos(k - 1)] == hex_digit(nibble(id, k - 1)));
        assert(hex_val(hex_digit(nibble(id, k - 1))) == nibble(id, k - 1));
        assert(((4 * (31 - (k - 1))) as u32) == s);
        assert(nibble(id, k - 1) == ((id >> s) & 0xf) as u8);
        assert(((4 * (32 - (k - 1))) as u32) == (s + 4) as u32);
        assert(uuid_val_prefix(ub, k - 1) == id >> ((s + 4) as u32));
        assert(((id >> ((s + 4) as u32)) << 4u32) | (((((id >> s) & 0xf) as u8)) as u128) == id >> s) by (bit_vector)
            requires s <= 120;
    }
}

/// The canonical text of any identifier is well shaped and parses back to the
/// same identifier.
pub proof fn lemma_uuid_round_trip(id: u128)
    ensures
        is_uuid_text(uuid_bytes(id)),
        parse_uuid_spec(uuid_bytes(id)) == Some(id),
{
    assert forall|i: int| 0 <= i < 36 implies #[trigger] uuid_char_ok(uuid_bytes(id), i) by {
        if !is_hyphen_idx(i) {
            lemma_nibble_bound(id, i - hyphens_before(i));
        }
    }
    lemma_uuid_prefix(id, 32);
    assert(id >> 0u32 == id) by (bit_vector);
    assert((4 * (32 - 32)) as u32 == 0u32);
}

} // verus!
