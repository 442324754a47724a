//! Wire codec: length-prefixed frames carrying a tagged binary encoding of
//! [`IconClientEvent`] and [`IconServerEvent`].
//!
//! A frame is a 32-bit little-endian byte count followed by that many
//! payload bytes.  The payload encoding is deterministic and
//! self-delimiting: integers are little-endian, strings are a byte count
//! followed by UTF-8 bytes, vectors are an element count followed by the
//! elements, and tagged unions are a one-byte tag followed by the fields.
//! Decoding fails on truncation, unknown tags, invalid UTF-8, and on any
//! payload that does not consume exactly the advertised byte count.

use vstd::prelude::*;
use vstd::bytes::*;
use vstd::utf8::*;

use crate::wire::{
    ClientEvent, ClientEventView, IconClientEvent, IconClientEventView, IconData, IconDataView,
    IconServerEvent, IconServerEventView, IconType, ServerEvent, ServerEventView,
};

verus! {

/// Decoding or framing failure.
#[derive(Debug, Copy, Clone, PartialEq, Eq, Structural)]
pub enum WireError {
    /// The payload is truncated, holds an unknown tag or invalid UTF-8,
    /// or its decoded byte count differs from its length.
    MalformedFrame,
    /// A frame length prefix exceeds the hard limit.
    ExcessiveLength,
}

/// Largest frame payload the protocol accepts, in bytes.
pub const MAX_FRAME_LEN: u32 = 0x8000_0000;

// ---------------------------------------------------------------------------
// Two's-complement view of an `i32` carried as a little-endian `u32`.
// ---------------------------------------------------------------------------

/// The `u32` whose bit pattern carries the given `i32` on the wire.
pub open spec fn i32_bits(x: i32) -> u32 {
    (x as int % 0x1_0000_0000) as u32
}

/// The `i32` carried by the given `u32` bit pattern.
pub open spec fn i32_of_bits(b: u32) -> i32 {
    if b < 0x8000_0000 {
        b as i32
    } else {
        (b as int - 0x1_0000_0000) as i32
    }
}

pub proof fn lemma_i32_bits_roundtrip(x: i32)
    ensures
        i32_of_bits(i32_bits(x)) == x,
{
    if x >= 0 {
        assert(x as int % 0x1_0000_0000 == x as int) by {
            vstd::arithmetic::div_mod::lemma_small_mod(x as nat, 0x1_0000_0000nat);
        }
    } else {
        let m: int = 0x1_0000_0000;
        let v: int = x as int + m;
        assert(0 <= v < m);
        assert(v % m == v) by {
            vstd::arithmetic::div_mod::lemma_small_mod(v as nat, m as nat);
        }
        assert(x as int % m == (v - m) % m);
        assert((v - m) % m == v % m) by {
            vstd::arithmetic::div_mod::lemma_mod_sub_multiples_vanish(v, m);
        }
    }
}

/// Converts an `i32` to the `u32` with the same bit pattern.
pub fn i32_to_bits(x: i32) -> (r: u32)
    ensures
        r == i32_bits(x),
{
    if x >= 0 {
        proof {
            vstd::arithmetic::div_mod::lemma_small_mod(x as nat, 0x1_0000_0000nat);
        }
        x as u32
    } else {
        proof {
            let m: int = 0x1_0000_0000;
            let v: int = x as int + m;
            vstd::arithmetic::div_mod::lemma_small_mod(v as nat, m as nat);
            vstd::arithmetic::div_mod::lemma_mod_sub_multiples_vanish(v, m);
        }
        (x as i64 + 0x1_0000_0000i64) as u32
    }
}

/// Converts a `u32` bit pattern back to the `i32` it carries.
pub fn bits_to_i32(b: u32) -> (r: i32)
    ensures
        r == i32_of_bits(b),
{
    if b < 0x8000_0000 {
        b as i32
    } else {
        (b as i64 - 0x1_0000_0000i64) as i32
    }
}

// ---------------------------------------------------------------------------
// Specification of the payload encoding, over the views of the wire types.
// ---------------------------------------------------------------------------

/// Byte-count-prefixed byte string.
pub open spec fn spec_enc_bytes(s: Seq<u8>) -> Seq<u8> {
    spec_u32_to_le_bytes(s.len() as u32) + s
}

/// Byte-count-prefixed UTF-8 encoding of a string.
pub open spec fn spec_enc_str(s: Seq<char>) -> Seq<u8> {
    spec_enc_bytes(encode_utf8(s))
}

pub open spec fn spec_enc_bool(b: bool) -> Seq<u8> {
    seq![if b { 1u8 } else { 0u8 }]
}

pub open spec fn spec_enc_opt_str(o: Option<Seq<char>>) -> Seq<u8> {
    match o {
        Option::None => seq![0u8],
        Option::Some(s) => seq![1u8] + spec_enc_str(s),
    }
}

/// An icon type is carried as its observation-mask bit value.
pub open spec fn spec_enc_icon_type(t: IconType) -> Seq<u8> {
    seq![t.spec_bit()]
}

pub open spec fn spec_enc_icon_data(d: IconDataView) -> Seq<u8> {
    spec_u32_to_le_bytes(d.width) + spec_u32_to_le_bytes(d.height) + spec_enc_bytes(d.data)
}

pub open spec fn spec_enc_icon_items(v: Seq<IconDataView>) -> Seq<u8>
    decreases v.len(),
{
    if v.len() == 0 {
        seq![]
    } else {
        spec_enc_icon_data(v[0]) + spec_enc_icon_items(v.drop_first())
    }
}

/// Element-count-prefixed pixmap list.
pub open spec fn spec_enc_icon_list(v: Seq<IconDataView>) -> Seq<u8> {
    spec_u32_to_le_bytes(v.len() as u32) + spec_enc_icon_items(v)
}

/// Tagged encoding of a guest-to-host event; tags follow declaration order.
pub open spec fn spec_enc_client_event(e: ClientEventView) -> Seq<u8> {
    match e {
        ClientEventView::Create { category, app_id, is_menu } => seq![0u8] + spec_enc_str(category)
            + spec_enc_str(app_id) + spec_enc_bool(is_menu),
        ClientEventView::Title(t) => seq![1u8] + spec_enc_opt_str(t),
        ClientEventView::Status(s) => seq![2u8] + spec_enc_opt_str(s),
        ClientEventView::Icon { typ, data } => seq![3u8] + spec_enc_icon_type(typ)
            + spec_enc_icon_list(data),
        ClientEventView::RemoveIcon(t) => seq![4u8] + spec_enc_icon_type(t),
        ClientEventView::Destroy => seq![5u8],
        ClientEventView::Tooltip { icon_data, title, description } => seq![6u8]
            + spec_enc_icon_list(icon_data) + spec_enc_str(title) + spec_enc_str(description),
        ClientEventView::RemoveTooltip => seq![7u8],
    }
}

/// Tagged encoding of a host-to-guest event; tags follow declaration order.
pub open spec fn spec_enc_server_event(e: ServerEventView) -> Seq<u8> {
    match e {
        ServerEventView::Activate { x, y } => seq![0u8] + spec_u32_to_le_bytes(i32_bits(x))
            + spec_u32_to_le_bytes(i32_bits(y)),
        ServerEventView::ContextMenu { x, y } => seq![1u8] + spec_u32_to_le_bytes(i32_bits(x))
            + spec_u32_to_le_bytes(i32_bits(y)),
        ServerEventView::SecondaryActivate { x, y } => seq![2u8] + spec_u32_to_le_bytes(
            i32_bits(x),
        ) + spec_u32_to_le_bytes(i32_bits(y)),
        ServerEventView::Scroll { delta, orientation } => seq![3u8] + spec_u32_to_le_bytes(
            i32_bits(delta),
        ) + spec_enc_str(orientation),
    }
}

/// Payload of a guest-to-host frame: the icon id, then the event.
pub open spec fn spec_enc_icon_client(m: IconClientEventView) -> Seq<u8> {
    spec_u64_to_le_bytes(m.id) + spec_enc_client_event(m.event)
}

/// Payload of a host-to-guest frame: the icon id, then the event.
pub open spec fn spec_enc_icon_server(m: IconServerEventView) -> Seq<u8> {
    spec_u64_to_le_bytes(m.id) + spec_enc_server_event(m.event)
}

// ---------------------------------------------------------------------------
// Representability: every count carried in a 32-bit prefix must fit in it.
// ---------------------------------------------------------------------------

pub open spec fn wf_str(s: Seq<char>) -> bool {
    encode_utf8(s).len() < 0x1_0000_0000
}

pub open spec fn wf_opt_str(o: Option<Seq<char>>) -> bool {
    match o {
        Option::None => true,
        Option::Some(s) => wf_str(s),
    }
}

pub open spec fn wf_icon_data(d: IconDataView) -> bool {
    d.data.len() < 0x1_0000_0000
}

pub open spec fn wf_icon_list(v: Seq<IconDataView>) -> bool {
    &&& v.len() < 0x1_0000_0000
    &&& forall|i: int| 0 <= i < v.len() ==> wf_icon_data(#[trigger] v[i])
}

/// True when every count and string in the event fits its 32-bit prefix.
pub open spec fn wf_client_event(e: ClientEventView) -> bool {
    match e {
        ClientEventView::Create { category, app_id, is_menu } => wf_str(category) && wf_str(
            app_id,
        ),
        ClientEventView::Title(t) => wf_opt_str(t),
        ClientEventView::Status(s) => wf_opt_str(s),
        ClientEventView::Icon { typ, data } => wf_icon_list(data),
        ClientEventView::RemoveIcon(t) => true,
        ClientEventView::Destroy => true,
        ClientEventView::Tooltip { icon_data, title, description } => wf_icon_list(icon_data)
            && wf_str(title) && wf_str(description),
        ClientEventView::RemoveTooltip => true,
    }
}

/// True when every string in the event fits its 32-bit prefix.
pub open spec fn wf_server_event(e: ServerEventView) -> bool {
    match e {
        ServerEventView::Scroll { delta, orientation } => wf_str(orientation),
        _ => true,
    }
}

// ---------------------------------------------------------------------------
// Specification of decoding.  Each decoder takes the remaining bytes and
// yields the decoded value together with the byte count it consumed.
// ---------------------------------------------------------------------------

pub open spec fn spec_dec_u8(s: Seq<u8>) -> Option<(u8, int)> {
    if s.len() >= 1 {
        Some((s[0], 1int))
    } else {
        None
    }
}

pub open spec fn spec_dec_u32(s: Seq<u8>) -> Option<(u32, int)> {
    if s.len() >= 4 {
        Some((spec_u32_from_le_bytes(s.subrange(0, 4)), 4int))
    } else {
        None
    }
}

pub open spec fn spec_dec_u64(s: Seq<u8>) -> Option<(u64, int)> {
    if s.len() >= 8 {
        Some((spec_u64_from_le_bytes(s.subrange(0, 8)), 8int))
    } else {
        None
    }
}

pub open spec fn spec_dec_bytes(s: Seq<u8>) -> Option<(Seq<u8>, int)> {
    match spec_dec_u32(s) {
        None => None,
        Some((n, c)) => if s.len() >= c + n {
            Some((s.subrange(c, c + n), c + n))
        } else {
            None
        },
    }
}

pub open spec fn spec_dec_str(s: Seq<u8>) -> Option<(Seq<char>, int)> {
    match spec_dec_bytes(s) {
        None => None,
        Some((b, c)) => if valid_utf8(b) {
            Some((decode_utf8(b), c))
        } else {
            None
        },
    }
}

pub open spec fn spec_dec_bool(s: Seq<u8>) -> Option<(bool, int)> {
    match spec_dec_u8(s) {
        None => None,
        Some((b, c)) => if b == 0 {
            Some((false, c))
        } else if b == 1 {
            Some((true, c))
        } else {
            None
        },
    }
}

pub open spec fn spec_dec_opt_str(s: Seq<u8>) -> Option<(Option<Seq<char>>, int)> {
    match spec_dec_u8(s) {
        None => None,
        Some((b, c)) => if b == 0 {
            Some((None, c))
        } else if b == 1 {
            match spec_dec_str(s.skip(c)) {
                None => None,
                Some((t, c2)) => Some((Some(t), c + c2)),
            }
        } else {
            None
        },
    }
}

pub open spec fn spec_icon_type_of_bit(b: u8) -> Option<IconType> {
    if b == 1 {
        Some(IconType::Normal)
    } else if b == 2 {
        Some(IconType::Overlay)
    } else if b == 4 {
        Some(IconType::Attention)
    } else if b == 8 {
        Some(IconType::Status)
    } else if b == 16 {
        Some(IconType::Title)
    } else {
        None
    }
}

pub open spec fn spec_dec_icon_type(s: Seq<u8>) -> Option<(IconType, int)> {
    match spec_dec_u8(s) {
        None => None,
        Some((b, c)) => match spec_icon_type_of_bit(b) {
            None => None,
            Some(t) => Some((t, c)),
        },
    }
}

pub open spec fn spec_dec_icon_data(s: Seq<u8>) -> Option<(IconDataView, int)> {
    match spec_dec_u32(s) {
        None => None,
        Some((w, c1)) => match spec_dec_u32(s.skip(c1)) {
            None => None,
            Some((h, c2)) => match spec_dec_bytes(s.skip(c1 + c2)) {
                None => None,
                Some((d, c3)) => Some(
                    (IconDataView { width: w, height: h, data: d }, c1 + c2 + c3),
                ),
            },
        },
    }
}

pub open spec fn spec_dec_icon_items(s: Seq<u8>, n: nat) -> Option<(Seq<IconDataView>, int)>
    decreases n,
{
    if n == 0 {
        Some((Seq::empty(), 0int))
    } else {
        match spec_dec_icon_data(s) {
            None => None,
            Some((d, c)) => if 0 <= c <= s.len() {
                match spec_dec_icon_items(s.skip(c), (n - 1) as nat) {
                    None => None,
                    Some((v, c2)) => Some((seq![d] + v, c + c2)),
                }
            } else {
                None
            },
        }
    }
}

pub open spec fn spec_dec_icon_list(s: Seq<u8>) -> Option<(Seq<IconDataView>, int)> {
    match spec_dec_u32(s) {
        None => None,
        Some((n, c)) => match spec_dec_icon_items(s.skip(c), n as nat) {
            None => None,
            Some((v, c2)) => Some((v, c + c2)),
        },
    }
}

pub open spec fn spec_dec_client_event(s: Seq<u8>) -> Option<(ClientEventView, int)> {
    match spec_dec_u8(s) {
        None => None,
        Some((tag, c)) => {
            let r = s.skip(c);
            if tag == 0 {
                match spec_dec_str(r) {
                    None => None,
                    Some((category, c1)) => match spec_dec_str(r.skip(c1)) {
                        None => None,
                        Some((app_id, c2)) => match spec_dec_bool(r.skip(c1 + c2)) {
                            None => None,
                            Some((is_menu, c3)) => Some(
                                (
                                    ClientEventView::Create { category, app_id, is_menu },
                                    c + c1 + c2 + c3,
                                ),
                            ),
                        },
                    },
                }
            } else if tag == 1 {
                match spec_dec_opt_str(r) {
                    None => None,
                    Some((t, c1)) => Some((ClientEventView::Title(t), c + c1)),
                }
            } else if tag == 2 {
                match spec_dec_opt_str(r) {
                    None => None,
                    Some((t, c1)) => Some((ClientEventView::Status(t), c + c1)),
                }
            } else if tag == 3 {
                match spec_dec_icon_type(r) {
                    None => None,
                    Some((typ, c1)) => match spec_dec_icon_list(r.skip(c1)) {
                        None => None,
                        Some((data, c2)) => Some(
                            (ClientEventView::Icon { typ, data }, c + c1 + c2),
                        ),
                    },
                }
            } else if tag == 4 {
                match spec_dec_icon_type(r) {
                    None => None,
                    Some((typ, c1)) => Some((ClientEventView::RemoveIcon(typ), c + c1)),
                }
            } else if tag == 5 {
                Some((ClientEventView::Destroy, c))
            } else if tag == 6 {
                match spec_dec_icon_list(r) {
                    None => None,
                    Some((icon_data, c1)) => match spec_dec_str(r.skip(c1)) {
                        None => None,
                        Some((title, c2)) => match spec_dec_str(r.skip(c1 + c2)) {
                            None => None,
                            Some((description, c3)) => Some(
                                (
                                    ClientEventView::Tooltip { icon_data, title, description },
                                    c + c1 + c2 + c3,
                                ),
                            ),
                        },
                    },
                }
            } else if tag == 7 {
                Some((ClientEventView::RemoveTooltip, c))
            } else {
                None
            }
        },
    }
}

pub open spec fn spec_dec_server_event(s: Seq<u8>) -> Option<(ServerEventView, int)> {
    match spec_dec_u8(s) {
        None => None,
        Some((tag, c)) => {
            let r = s.skip(c);
            if tag == 3 {
                match spec_dec_u32(r) {
                    None => None,
                    Some((delta, c1)) => match spec_dec_str(r.skip(c1)) {
                        None => None,
                        Some((orientation, c2)) => Some(
                            (
                                ServerEventView::Scroll {
                                    delta: i32_of_bits(delta),
                                    orientation,
                                },
                                c + c1 + c2,
                            ),
                        ),
                    },
                }
            } else if tag == 0 || tag == 1 || tag == 2 {
                match spec_dec_u32(r) {
                    None => None,
                    Some((x, c1)) => match spec_dec_u32(r.skip(c1)) {
                        None => None,
                        Some((y, c2)) => {
                            let xi = i32_of_bits(x);
                            let yi = i32_of_bits(y);
                            let e = if tag == 0 {
                                ServerEventView::Activate { x: xi, y: yi }
                            } else if tag == 1 {
                                ServerEventView::ContextMenu { x: xi, y: yi }
                            } else {
                                ServerEventView::SecondaryActivate { x: xi, y: yi }
                            };
                            Some((e, c + c1 + c2))
                        },
                    },
                }
            } else {
                None
            }
        },
    }
}

/// Full-payload decoding of a guest-to-host frame.  The result is `Some`
/// only when the event consumes exactly the whole payload.
pub open spec fn spec_dec_icon_client(s: Seq<u8>) -> Option<IconClientEventView> {
    match spec_dec_u64(s) {
        None => None,
        Some((id, c)) => match spec_dec_client_event(s.skip(c)) {
            None => None,
            Some((event, c2)) => if c + c2 == s.len() {
                Some(IconClientEventView { id, event })
            } else {
                None
            },
        },
    }
}

/// Full-payload decoding of a host-to-guest frame.  The result is `Some`
/// only when the event consumes exactly the whole payload.
pub open spec fn spec_dec_icon_server(s: Seq<u8>) -> Option<IconServerEventView> {
    match spec_dec_u64(s) {
        None => None,
        Some((id, c)) => match spec_dec_server_event(s.skip(c)) {
            None => None,
            Some((event, c2)) => if c + c2 == s.len() {
                Some(IconServerEventView { id, event })
            } else {
                None
            },
        },
    }
}

// ---------------------------------------------------------------------------
// Round trip: each decoder inverts its encoder and consumes exactly the
// encoder's output, whatever bytes follow.
// ---------------------------------------------------------------------------

pub proof fn lemma_dec_u8_enc(b: u8, rest: Seq<u8>)
    ensures
        spec_dec_u8(seq![b] + rest) == Some((b, 1int)),
{
    assert((seq![b] + rest)[0] == b);
}

pub proof fn lemma_dec_u32_enc(x: u32, rest: Seq<u8>)
    ensures
        spec_dec_u32(spec_u32_to_le_bytes(x) + rest) == Some((x, 4int)),
{
    lemma_auto_spec_u32_to_from_le_bytes();
    assert((spec_u32_to_le_bytes(x) + rest).subrange(0, 4) =~= spec_u32_to_le_bytes(x));
}

pub proof fn lemma_dec_u64_enc(x: u64, rest: Seq<u8>)
    ensures
        spec_dec_u64(spec_u64_to_le_bytes(x) + rest) == Some((x, 8int)),
{
    lemma_auto_spec_u64_to_from_le_bytes();
    assert((spec_u64_to_le_bytes(x) + rest).subrange(0, 8) =~= spec_u64_to_le_bytes(x));
}

pub proof fn lemma_dec_bytes_enc(s: Seq<u8>, rest: Seq<u8>)
    requires
        s.len() < 0x1_0000_0000,
    ensures
        spec_dec_bytes(spec_enc_bytes(s) + rest) == Some((s, 4 + s.len() as int)),
{
    lemma_auto_spec_u32_to_from_le_bytes();
    let whole = spec_enc_bytes(s) + rest;
    assert(whole =~= spec_u32_to_le_bytes(s.len() as u32) + (s + rest));
    lemma_dec_u32_enc(s.len() as u32, s + rest);
    assert(whole.subrange(4, 4 + s.len() as int) =~= s);
}

pub proof fn lemma_dec_str_enc(s: Seq<char>, rest: Seq<u8>)
    requires
        wf_str(s),
    ensures
        spec_dec_str(spec_enc_str(s) + rest) == Some(
            (s, 4 + encode_utf8(s).len() as int),
        ),
{
    let b = encode_utf8(s);
    lemma_dec_bytes_enc(b, rest);
    encode_utf8_valid_utf8(s);
    encode_utf8_decode_utf8(s);
}

pub proof fn lemma_dec_bool_enc(b: bool, rest: Seq<u8>)
    ensures
        spec_dec_bool(spec_enc_bool(b) + rest) == Some((b, 1int)),
{
    if b {
        lemma_dec_u8_enc(1u8, rest);
        assert(spec_enc_bool(b) + rest =~= seq![1u8] + rest);
    } else {
        lemma_dec_u8_enc(0u8, rest);
        assert(spec_enc_bool(b) + rest =~= seq![0u8] + rest);
    }
}

pub proof fn lemma_dec_opt_str_enc(o: Option<Seq<char>>, rest: Seq<u8>)
    requires
        wf_opt_str(o),
    ensures
        spec_dec_opt_str(spec_enc_opt_str(o) + rest) == Some(
            (
                o,
                match o {
                    Option::None => 1int,
                    Option::Some(s) => 1 + 4 + encode_utf8(s).len() as int,
                },
            ),
        ),
{
    match o {
        Option::None => {
            lemma_dec_u8_enc(0u8, rest);
            assert(spec_enc_opt_str(o) + rest =~= seq![0u8] + rest);
        },
        Option::Some(s) => {
            let whole = spec_enc_opt_str(o) + rest;
            assert(whole =~= seq![1u8] + (spec_enc_str(s) + rest));
            lemma_dec_u8_enc(1u8, spec_enc_str(s) + rest);
            assert(whole.skip(1) =~= spec_enc_str(s) + rest);
            lemma_dec_str_enc(s, rest);
        },
    }
}

pub proof fn lemma_dec_icon_type_enc(t: IconType, rest: Seq<u8>)
    ensures
        spec_dec_icon_type(spec_enc_icon_type(t) + rest) == Some((t, 1int)),
{
    lemma_dec_u8_enc(t.spec_bit(), rest);
    assert(spec_enc_icon_type(t) + rest =~= seq![t.spec_bit()] + rest);
}

pub proof fn lemma_dec_icon_data_enc(d: IconDataView, rest: Seq<u8>)
    requires
        wf_icon_data(d),
    ensures
        spec_dec_icon_data(spec_enc_icon_data(d) + rest) == Some(
            (d, spec_enc_icon_data(d).len() as int),
        ),
        spec_enc_icon_data(d).len() == 12 + d.data.len(),
{
    lemma_auto_spec_u32_to_from_le_bytes();
    let whole = spec_enc_icon_data(d) + rest;
    assert(whole =~= spec_u32_to_le_bytes(d.width) + (spec_u32_to_le_bytes(d.height) + (
    spec_enc_bytes(d.data) + rest)));
    lemma_dec_u32_enc(d.width, spec_u32_to_le_bytes(d.height) + (spec_enc_bytes(d.data) + rest));
    assert(whole.skip(4) =~= spec_u32_to_le_bytes(d.height) + (spec_enc_bytes(d.data) + rest));
    lemma_dec_u32_enc(d.height, spec_enc_bytes(d.data) + rest);
    assert(whole.skip(8) =~= spec_enc_bytes(d.data) + rest);
    lemma_dec_bytes_enc(d.data, rest);
}

pub proof fn lemma_dec_icon_items_enc(v: Seq<IconDataView>, rest: Seq<u8>)
    requires
        forall|i: int| 0 <= i < v.len() ==> wf_icon_data(#[trigger] v[i]),
    ensures
        spec_dec_icon_items(spec_enc_icon_items(v) + rest, v.len() as nat) == Some(
            (v, spec_enc_icon_items(v).len() as int),
        ),
    decreases v.len(),
{
    if v.len() == 0 {
        assert(spec_enc_icon_items(v) =~= Seq::<u8>::empty());
        assert(v =~= Seq::<IconDataView>::empty());
    } else {
        let whole = spec_enc_icon_items(v) + rest;
        let tail = v.drop_first();
        assert(whole =~= spec_enc_icon_data(v[0]) + (spec_enc_icon_items(tail) + rest));
        lemma_dec_icon_data_enc(v[0], spec_enc_icon_items(tail) + rest);
        let c = spec_enc_icon_data(v[0]).len() as int;
        assert(whole.skip(c) =~= spec_enc_icon_items(tail) + rest);
        lemma_dec_icon_items_enc(tail, rest);
        assert(seq![v[0]] + tail =~= v);
    }
}

pub proof fn lemma_dec_icon_list_enc(v: Seq<IconDataView>, rest: Seq<u8>)
    requires
        wf_icon_list(v),
    ensures
        spec_dec_icon_list(spec_enc_icon_list(v) + rest) == Some(
            (v, spec_enc_icon_list(v).len() as int),
        ),
{
    lemma_auto_spec_u32_to_from_le_bytes();
    let whole = spec_enc_icon_list(v) + rest;
    assert(whole =~= spec_u32_to_le_bytes(v.len() as u32) + (spec_enc_icon_items(v) + rest));
    lemma_dec_u32_enc(v.len() as u32, spec_enc_icon_items(v) + rest);
    assert(whole.skip(4) =~= spec_enc_icon_items(v) + rest);
    lemma_dec_icon_items_enc(v, rest);
}

proof fn lemma_dec_create_enc(category: Seq<char>, app_id: Seq<char>, is_menu: bool, rest: Seq<u8>)
    requires
        wf_str(category),
        wf_str(app_id),
    ensures
        ({
            let e = ClientEventView::Create { category, app_id, is_menu };
            spec_dec_client_event(spec_enc_client_event(e) + rest) == Some(
                (e, spec_enc_client_event(e).len() as int),
            )
        }),
{
    lemma_auto_spec_u32_to_from_le_bytes();
    let e = ClientEventView::Create { category, app_id, is_menu };
    let whole = spec_enc_client_event(e) + rest;
    let p1 = spec_enc_str(category);
    let p2 = spec_enc_str(app_id);
    let p3 = spec_enc_bool(is_menu);
    assert(whole =~= seq![0u8] + (p1 + (p2 + (p3 + rest))));
    lemma_dec_u8_enc(0u8, p1 + (p2 + (p3 + rest)));
    assert(whole.skip(1) =~= p1 + (p2 + (p3 + rest)));
    let r = whole.skip(1);
    lemma_dec_str_enc(category, p2 + (p3 + rest));
    assert(r.skip(p1.len() as int) =~= p2 + (p3 + rest));
    lemma_dec_str_enc(app_id, p3 + rest);
    assert(r.skip(p1.len() as int + p2.len() as int) =~= p3 + rest);
    lemma_dec_bool_enc(is_menu, rest);
}

proof fn lemma_dec_tooltip_enc(
    icon_data: Seq<IconDataView>,
    title: Seq<char>,
    description: Seq<char>,
    rest: Seq<u8>,
)
    requires
        wf_icon_list(icon_data),
        wf_str(title),
        wf_str(description),
    ensures
        ({
            let e = ClientEventView::Tooltip { icon_data, title, description };
            spec_dec_client_event(spec_enc_client_event(e) + rest) == Some(
                (e, spec_enc_client_event(e).len() as int),
            )
        }),
{
    lemma_auto_spec_u32_to_from_le_bytes();
    let e = ClientEventView::Tooltip { icon_data, title, description };
    let whole = spec_enc_client_event(e) + rest;
    let p1 = spec_enc_icon_list(icon_data);
    let p2 = spec_enc_str(title);
    let p3 = spec_enc_str(description);
    assert(whole =~= seq![6u8] + (p1 + (p2 + (p3 + rest))));
    lemma_dec_u8_enc(6u8, p1 + (p2 + (p3 + rest)));
    assert(whole.skip(1) =~= p1 + (p2 + (p3 + rest)));
    let r = whole.skip(1);
    lemma_dec_icon_list_enc(icon_data, p2 + (p3 + rest));
    assert(r.skip(p1.len() as int) =~= p2 + (p3 + rest));
    lemma_dec_str_enc(title, p3 + rest);
    assert(r.skip(p1.len() as int + p2.len() as int) =~= p3 + rest);
    lemma_dec_str_enc(description, rest);
}

proof fn lemma_dec_icon_variant_enc(typ: IconType, data: Seq<IconDataView>, rest: Seq<u8>)
    requires
        wf_icon_list(data),
    ensures
        ({
            let e = ClientEventView::Icon { typ, data };
            spec_dec_client_event(spec_enc_client_event(e) + rest) == Some(
                (e, spec_enc_client_event(e).len() as int),
            )
        }),
{
    lemma_auto_spec_u32_to_from_le_bytes();
    let e = ClientEventView::Icon { typ, data };
    let whole = spec_enc_client_event(e) + rest;
    let p1 = spec_enc_icon_type(typ);
    let p2 = spec_enc_icon_list(data);
    assert(whole =~= seq![3u8] + (p1 + (p2 + rest)));
    lemma_dec_u8_enc(3u8, p1 + (p2 + rest));
    assert(whole.skip(1) =~= p1 + (p2 + rest));
    let r = whole.skip(1);
    lemma_dec_icon_type_enc(typ, p2 + rest);
    assert(r.skip(1) =~= p2 + rest);
    lemma_dec_icon_list_enc(data, rest);
}

proof fn lemma_dec_title_enc(t: Option<Seq<char>>, rest: Seq<u8>)
    requires
        wf_opt_str(t),
    ensures
        ({
            let e = ClientEventView::Title(t);
            spec_dec_client_event(spec_enc_client_event(e) + rest) == Some(
                (e, spec_enc_client_event(e).len() as int),
            )
        }),
{
    lemma_auto_spec_u32_to_from_le_bytes();
    let e = ClientEventView::Title(t);
    let whole = spec_enc_client_event(e) + rest;
    let p1 = spec_enc_opt_str(t);
    assert(whole =~= seq![1u8] + (p1 + rest));
    lemma_dec_u8_enc(1u8, p1 + rest);
    assert(whole.skip(1) =~= p1 + rest);
    lemma_dec_opt_str_enc(t, rest);
}

proof fn lemma_dec_status_enc(t: Option<Seq<char>>, rest: Seq<u8>)
    requires
        wf_opt_str(t),
    ensures
        ({
            let e = ClientEventView::Status(t);
            spec_dec_client_event(spec_enc_client_event(e) + rest) == Some(
                (e, spec_enc_client_event(e).len() as int),
            )
        }),
{
    lemma_auto_spec_u32_to_from_le_bytes();
    let e = ClientEventView::Status(t);
    let whole = spec_enc_client_event(e) + rest;
    let p1 = spec_enc_opt_str(t);
    assert(whole =~= seq![2u8] + (p1 + rest));
    lemma_dec_u8_enc(2u8, p1 + rest);
    assert(whole.skip(1) =~= p1 + rest);
    lemma_dec_opt_str_enc(t, rest);
}

proof fn lemma_dec_remove_icon_enc(typ: IconType, rest: Seq<u8>)
    ensures
        ({
            let e = ClientEventView::RemoveIcon(typ);
            spec_dec_client_event(spec_enc_client_event(e) + rest) == Some(
                (e, spec_enc_client_event(e).len() as int),
            )
        }),
{
    let e = ClientEventView::RemoveIcon(typ);
    let whole = spec_enc_client_event(e) + rest;
    let p1 = spec_enc_icon_type(typ);
    assert(whole =~= seq![4u8] + (p1 + rest));
    lemma_dec_u8_enc(4u8, p1 + rest);
    assert(whole.skip(1) =~= p1 + rest);
    lemma_dec_icon_type_enc(typ, rest);
}

proof fn lemma_dec_destroy_enc(rest: Seq<u8>)
    ensures
        spec_dec_client_event(spec_enc_client_event(ClientEventView::Destroy) + rest) == Some(
            (ClientEventView::Destroy, 1int),
        ),
{
    let whole = spec_enc_client_event(ClientEventView::Destroy) + rest;
    assert(whole =~= seq![5u8] + rest);
    lemma_dec_u8_enc(5u8, rest);
}

proof fn lemma_dec_remove_tooltip_enc(rest: Seq<u8>)
    ensures
        spec_dec_client_event(spec_enc_client_event(ClientEventView::RemoveTooltip) + rest)
            == Some((ClientEventView::RemoveTooltip, 1int)),
{
    let whole = spec_enc_client_event(ClientEventView::RemoveTooltip) + rest;
    assert(whole =~= seq![7u8] + rest);
    lemma_dec_u8_enc(7u8, rest);
}

pub proof fn lemma_dec_client_event_enc(e: ClientEventView, rest: Seq<u8>)
    requires
        wf_client_event(e),
    ensures
        spec_dec_client_event(spec_enc_client_event(e) + rest) == Some(
            (e, spec_enc_client_event(e).len() as int),
        ),
{
    match e {
        ClientEventView::Create { category, app_id, is_menu } => {
            lemma_dec_create_enc(category, app_id, is_menu, rest);
        },
        ClientEventView::Title(t) => {
            lemma_dec_title_enc(t, rest);
        },
        ClientEventView::Status(t) => {
            lemma_dec_status_enc(t, rest);
        },
        ClientEventView::Icon { typ, data } => {
            lemma_dec_icon_variant_enc(typ, data, rest);
        },
        ClientEventView::RemoveIcon(typ) => {
            lemma_dec_remove_icon_enc(typ, rest);
        },
        ClientEventView::Destroy => {
            lemma_dec_destroy_enc(rest);
        },
        ClientEventView::Tooltip { icon_data, title, description } => {
            lemma_dec_tooltip_enc(icon_data, title, description, rest);
        },
        ClientEventView::RemoveTooltip => {
            lemma_dec_remove_tooltip_enc(rest);
        },
    }
}

pub proof fn lemma_dec_server_event_enc(e: ServerEventView, rest: Seq<u8>)
    requires
        wf_server_event(e),
    ensures
        spec_dec_server_event(spec_enc_server_event(e) + rest) == Some(
            (e, spec_enc_server_event(e).len() as int),
        ),
{
    lemma_auto_spec_u32_to_from_le_bytes();
    let whole = spec_enc_server_event(e) + rest;
    match e {
        ServerEventView::Activate { x, y } => {
            lemma_dec_xy_enc(0u8, x, y, rest);
        },
        ServerEventView::ContextMenu { x, y } => {
            lemma_dec_xy_enc(1u8, x, y, rest);
        },
        ServerEventView::SecondaryActivate { x, y } => {
            lemma_dec_xy_enc(2u8, x, y, rest);
        },
        ServerEventView::Scroll { delta, orientation } => {
            let p1 = spec_u32_to_le_bytes(i32_bits(delta));
            let p2 = spec_enc_str(orientation);
            assert(whole =~= seq![3u8] + (p1 + (p2 + rest)));
            lemma_dec_u8_enc(3u8, p1 + (p2 + rest));
            assert(whole.skip(1) =~= p1 + (p2 + rest));
            let r = whole.skip(1);
            lemma_dec_u32_enc(i32_bits(delta), p2 + rest);
            assert(r.skip(4) =~= p2 + rest);
            lemma_dec_str_enc(orientation, rest);
            lemma_i32_bits_roundtrip(delta);
        },
    }
}

proof fn lemma_dec_xy_enc(tag: u8, x: i32, y: i32, rest: Seq<u8>)
    requires
        tag == 0 || tag == 1 || tag == 2,
    ensures
        spec_dec_server_event(
            seq![tag] + spec_u32_to_le_bytes(i32_bits(x)) + spec_u32_to_le_bytes(i32_bits(y))
                + rest,
        ) == Some(
            (
                if tag == 0 {
                    ServerEventView::Activate { x, y }
                } else if tag == 1 {
                    ServerEventView::ContextMenu { x, y }
                } else {
                    ServerEventView::SecondaryActivate { x, y }
                },
                9int,
            ),
        ),
{
    lemma_auto_spec_u32_to_from_le_bytes();
    let p1 = spec_u32_to_le_bytes(i32_bits(x));
    let p2 = spec_u32_to_le_bytes(i32_bits(y));
    let whole = seq![tag] + p1 + p2 + rest;
    assert(whole =~= seq![tag] + (p1 + (p2 + rest)));
    lemma_dec_u8_enc(tag, p1 + (p2 + rest));
    assert(whole.skip(1) =~= p1 + (p2 + rest));
    let r = whole.skip(1);
    lemma_dec_u32_enc(i32_bits(x), p2 + rest);
    assert(r.skip(4) =~= p2 + rest);
    lemma_dec_u32_enc(i32_bits(y), rest);
    lemma_i32_bits_roundtrip(x);
    lemma_i32_bits_roundtrip(y);
}

/// Decoding inverts encoding on every representable guest-to-host payload.
pub proof fn lemma_roundtrip_icon_client(m: IconClientEventView)
    requires
        wf_client_event(m.event),
    ensures
        spec_dec_icon_client(spec_enc_icon_client(m)) == Some(m),
{
    lemma_auto_spec_u64_to_from_le_bytes();
    let enc = spec_enc_icon_client(m);
    let body = spec_enc_client_event(m.event);
    assert(enc =~= spec_u64_to_le_bytes(m.id) + (body + Seq::<u8>::empty()));
    lemma_dec_u64_enc(m.id, body + Seq::<u8>::empty());
    assert(enc.skip(8) =~= body + Seq::<u8>::empty());
    lemma_dec_client_event_enc(m.event, Seq::<u8>::empty());
}

/// Decoding inverts encoding on every representable host-to-guest payload.
pub proof fn lemma_roundtrip_icon_server(m: IconServerEventView)
    requires
        wf_server_event(m.event),
    ensures
        spec_dec_icon_server(spec_enc_icon_server(m)) == Some(m),
{
    lemma_auto_spec_u64_to_from_le_bytes();
    let enc = spec_enc_icon_server(m);
    let body = spec_enc_server_event(m.event);
    assert(enc =~= spec_u64_to_le_bytes(m.id) + (body + Seq::<u8>::empty()));
    lemma_dec_u64_enc(m.id, body + Seq::<u8>::empty());
    assert(enc.skip(8) =~= body + Seq::<u8>::empty());
    lemma_dec_server_event_enc(m.event, Seq::<u8>::empty());
}

/// A payload followed by any extra byte is refused: the decoder accepts a
/// buffer only when the event's encoding consumes it exactly.
pub proof fn lemma_icon_client_rejects_trailing(m: IconClientEventView, junk: Seq<u8>)
    requires
        wf_client_event(m.event),
        junk.len() > 0,
    ensures
        spec_dec_icon_client(spec_enc_icon_client(m) + junk) == None::<IconClientEventView>,
{
    lemma_auto_spec_u64_to_from_le_bytes();
    let enc = spec_enc_icon_client(m);
    let body = spec_enc_client_event(m.event);
    let whole = enc + junk;
    assert(whole =~= spec_u64_to_le_bytes(m.id) + (body + junk));
    lemma_dec_u64_enc(m.id, body + junk);
    assert(whole.skip(8) =~= body + junk);
    lemma_dec_client_event_enc(m.event, junk);
}

/// A payload followed by any extra byte is refused: the decoder accepts a
/// buffer only when the event's encoding consumes it exactly.
pub proof fn lemma_icon_server_rejects_trailing(m: IconServerEventView, junk: Seq<u8>)
    requires
        wf_server_event(m.event),
        junk.len() > 0,
    ensures
        spec_dec_icon_server(spec_enc_icon_server(m) + junk) == None::<IconServerEventView>,
{
    lemma_auto_spec_u64_to_from_le_bytes();
    let enc = spec_enc_icon_server(m);
    let body = spec_enc_server_event(m.event);
    let whole = enc + junk;
    assert(whole =~= spec_u64_to_le_bytes(m.id) + (body + junk));
    lemma_dec_u64_enc(m.id, body + junk);
    assert(whole.skip(8) =~= body + junk);
    lemma_dec_server_event_enc(m.event, junk);
}

// ---------------------------------------------------------------------------
// Executable encoding.
// ---------------------------------------------------------------------------

/// Relies on `String::from_utf8` of std: it succeeds exactly on UTF-8
/// input and yields the string those bytes encode.
#[verifier::external_body]
fn string_from_utf8(v: Vec<u8>) -> (r: Option<String>)
    ensures
        r is Some <==> valid_utf8(v@),
        r matches Some(s) ==> s@ == decode_utf8(v@),
{
    String::from_utf8(v).ok()
}

fn push_u32(out: &mut Vec<u8>, x: u32)
    ensures
        final(out)@ == old(out)@ + spec_u32_to_le_bytes(x),
{
    let mut b = u32_to_le_bytes(x);
    out.append(&mut b);
}

fn push_u64(out: &mut Vec<u8>, x: u64)
    ensures
        final(out)@ == old(out)@ + spec_u64_to_le_bytes(x),
{
    let mut b = u64_to_le_bytes(x);
    out.append(&mut b);
}

fn push_bytes(out: &mut Vec<u8>, s: &[u8])
    requires
        s@.len() < 0x1_0000_0000,
    ensures
        final(out)@ == old(out)@ + spec_enc_bytes(s@),
{
    proof {
        lemma_auto_spec_u32_to_from_le_bytes();
    }
    push_u32(out, s.len() as u32);
    let ghost mid = out@;
    out.extend_from_slice(s);
    assert(out@ =~= mid + s@);
    assert(out@ =~= old(out)@ + spec_enc_bytes(s@));
}

fn push_str(out: &mut Vec<u8>, s: &str)
    requires
        wf_str(s@),
    ensures
        final(out)@ == old(out)@ + spec_enc_str(s@),
{
    let b = s.as_bytes();
    push_bytes(out, b);
}

fn push_bool(out: &mut Vec<u8>, b: bool)
    ensures
        final(out)@ == old(out)@ + spec_enc_bool(b),
{
    if b {
        out.push(1u8);
    } else {
        out.push(0u8);
    }
    assert(out@ =~= old(out)@ + spec_enc_bool(b));
}

fn push_opt_str(out: &mut Vec<u8>, o: &Option<String>)
    requires
        wf_opt_str(o.deep_view()),
    ensures
        final(out)@ == old(out)@ + spec_enc_opt_str(o.deep_view()),
{
    match o {
        Option::None => {
            out.push(0u8);
            assert(out@ =~= old(out)@ + spec_enc_opt_str(o.deep_view()));
        },
        Option::Some(s) => {
            out.push(1u8);
            push_str(out, s.as_str());
            assert(out@ =~= old(out)@ + spec_enc_opt_str(o.deep_view()));
        },
    }
}

fn push_icon_type(out: &mut Vec<u8>, t: IconType)
    ensures
        final(out)@ == old(out)@ + spec_enc_icon_type(t),
{
    out.push(t.bit());
    assert(out@ =~= old(out)@ + spec_enc_icon_type(t));
}

fn push_icon_data(out: &mut Vec<u8>, d: &IconData)
    requires
        wf_icon_data(d@),
    ensures
        final(out)@ == old(out)@ + spec_enc_icon_data(d@),
{
    push_u32(out, d.width);
    push_u32(out, d.height);
    push_bytes(out, d.data.as_slice());
    assert(out@ =~= old(out)@ + spec_enc_icon_data(d@));
}

proof fn lemma_enc_icon_items_push(v: Seq<IconDataView>, x: IconDataView)
    ensures
        spec_enc_icon_items(v.push(x)) == spec_enc_icon_items(v) + spec_enc_icon_data(x),
    decreases v.len(),
{
    if v.len() == 0 {
        assert(v.push(x)[0] == x);
        assert(v.push(x).drop_first() =~= Seq::<IconDataView>::empty());
        assert(spec_enc_icon_items(Seq::<IconDataView>::empty()) == Seq::<u8>::empty());
        assert(v =~= Seq::<IconDataView>::empty());
        assert(spec_enc_icon_items(v.push(x)) =~= spec_enc_icon_data(x) + Seq::<u8>::empty());
        assert(spec_enc_icon_items(v) + spec_enc_icon_data(x) =~= spec_enc_icon_data(x)
            + Seq::<u8>::empty());
    } else {
        assert(v.push(x).drop_first() =~= v.drop_first().push(x));
        lemma_enc_icon_items_push(v.drop_first(), x);
        assert(spec_enc_icon_items(v.push(x)) =~= spec_enc_icon_items(v) + spec_enc_icon_data(x));
    }
}

fn push_icon_list(out: &mut Vec<u8>, v: &Vec<IconData>)
    requires
        wf_icon_list(v.deep_view()),
    ensures
        final(out)@ == old(out)@ + spec_enc_icon_list(v.deep_view()),
{
    proof {
        lemma_auto_spec_u32_to_from_le_bytes();
    }
    push_u32(out, v.len() as u32);
    let ghost base = out@;
    let n = v.len();
    let mut i: usize = 0;
    while i < n
        invariant
            n == v@.len(),
            0 <= i <= n,
            wf_icon_list(v.deep_view()),
            out@ == base + spec_enc_icon_items(v.deep_view().take(i as int)),
        decreases n - i,
    {
        assert(v.deep_view()[i as int] == v@[i as int].deep_view());
        push_icon_data(out, &v[i]);
        proof {
            lemma_enc_icon_items_push(v.deep_view().take(i as int), v.deep_view()[i as int]);
            assert(v.deep_view().take(i + 1) =~= v.deep_view().take(i as int).push(
                v.deep_view()[i as int],
            ));
        }
        i = i + 1;
    }
    assert(v.deep_view().take(n as int) =~= v.deep_view());
}

/// Appends the tagged encoding of the event.
fn push_client_event(out: &mut Vec<u8>, ev: &ClientEvent)
    requires
        wf_client_event(ev@),
    ensures
        final(out)@ == old(out)@ + spec_enc_client_event(ev@),
{
    match ev {
        ClientEvent::Create { category, app_id, is_menu } => {
            out.push(0u8);
            push_str(out, category.as_str());
            push_str(out, app_id.as_str());
            push_bool(out, *is_menu);
        },
        ClientEvent::Title(t) => {
            out.push(1u8);
            push_opt_str(out, t);
        },
        ClientEvent::Status(s) => {
            out.push(2u8);
            push_opt_str(out, s);
        },
        ClientEvent::Icon { typ, data } => {
            out.push(3u8);
            push_icon_type(out, *typ);
            push_icon_list(out, data);
        },
        ClientEvent::RemoveIcon(t) => {
            out.push(4u8);
            push_icon_type(out, *t);
        },
        ClientEvent::Destroy => {
            out.push(5u8);
        },
        ClientEvent::Tooltip { icon_data, title, description } => {
            out.push(6u8);
            push_icon_list(out, icon_data);
            push_str(out, title.as_str());
            push_str(out, description.as_str());
        },
        ClientEvent::RemoveTooltip => {
            out.push(7u8);
        },
    }
    assert(out@ =~= old(out)@ + spec_enc_client_event(ev@));
}

/// Appends the tagged encoding of the event.
fn push_server_event(out: &mut Vec<u8>, ev: &ServerEvent)
    requires
        wf_server_event(ev@),
    ensures
        final(out)@ == old(out)@ + spec_enc_server_event(ev@),
{
    match ev {
        ServerEvent::Activate { x, y } => {
            out.push(0u8);
            push_u32(out, i32_to_bits(*x));
            push_u32(out, i32_to_bits(*y));
        },
        ServerEvent::ContextMenu { x, y } => {
            out.push(1u8);
            push_u32(out, i32_to_bits(*x));
            push_u32(out, i32_to_bits(*y));
        },
        ServerEvent::SecondaryActivate { x, y } => {
            out.push(2u8);
            push_u32(out, i32_to_bits(*x));
            push_u32(out, i32_to_bits(*y));
        },
        ServerEvent::Scroll { delta, orientation } => {
            out.push(3u8);
            push_u32(out, i32_to_bits(*delta));
            push_str(out, orientation.as_str());
        },
    }
    assert(out@ =~= old(out)@ + spec_enc_server_event(ev@));
}

// ---------------------------------------------------------------------------
// Executable representability checks.
// ---------------------------------------------------------------------------

fn str_fits(s: &str) -> (b: bool)
    ensures
        b == wf_str(s@),
{
    (s.as_bytes().len() as u64) < 0x1_0000_0000u64
}

fn opt_str_fits(o: &Option<String>) -> (b: bool)
    ensures
        b == wf_opt_str(o.deep_view()),
{
    match o {
        Option::None => true,
        Option::Some(s) => str_fits(s.as_str()),
    }
}

fn icon_data_fits(d: &IconData) -> (b: bool)
    ensures
        b == wf_icon_data(d@),
{
    (d.data.len() as u64) < 0x1_0000_0000u64
}

fn icon_list_fits(v: &Vec<IconData>) -> (b: bool)
    ensures
        b == wf_icon_list(v.deep_view()),
{
    if !((v.len() as u64) < 0x1_0000_0000u64) {
        return false;
    }
    let n = v.len();
    let mut i: usize = 0;
    while i < n
        invariant
            n == v@.len(),
            0 <= i <= n,
            v@.len() < 0x1_0000_0000,
            forall|j: int| 0 <= j < i ==> wf_icon_data(#[trigger] v.deep_view()[j]),
        decreases n - i,
    {
        assert(v.deep_view()[i as int] == v@[i as int].deep_view());
        if !icon_data_fits(&v[i]) {
            return false;
        }
        i = i + 1;
    }
    true
}

/// True when every count and string in the event fits its 32-bit prefix.
pub fn client_event_fits(ev: &ClientEvent) -> (b: bool)
    ensures
        b == wf_client_event(ev@),
{
    match ev {
        ClientEvent::Create { category, app_id, is_menu } => str_fits(category.as_str())
            && str_fits(app_id.as_str()),
        ClientEvent::Title(t) => opt_str_fits(t),
        ClientEvent::Status(s) => opt_str_fits(s),
        ClientEvent::Icon { typ, data } => icon_list_fits(data),
        ClientEvent::RemoveIcon(t) => true,
        ClientEvent::Destroy => true,
        ClientEvent::Tooltip { icon_data, title, description } => icon_list_fits(icon_data)
            && str_fits(title.as_str()) && str_fits(description.as_str()),
        ClientEvent::RemoveTooltip => true,
    }
}

/// True when every string in the event fits its 32-bit prefix.
pub fn server_event_fits(ev: &ServerEvent) -> (b: bool)
    ensures
        b == wf_server_event(ev@),
{
    match ev {
        ServerEvent::Scroll { delta, orientation } => str_fits(orientation.as_str()),
        _ => true,
    }
}

// ---------------------------------------------------------------------------
// Public encoding: frame payloads and whole frames.
// ---------------------------------------------------------------------------

/// Encodes the payload of a guest-to-host frame.  Fails exactly when a
/// string or pixmap in the event is too large for its 32-bit count.
pub fn encode_client_payload(m: &IconClientEvent) -> (r: Result<Vec<u8>, WireError>)
    ensures
        r is Ok <==> wf_client_event(m.event@),
        r matches Ok(v) ==> v@ == spec_enc_icon_client(m@),
        r is Err ==> r == Err::<Vec<u8>, WireError>(WireError::ExcessiveLength),
{
    if !client_event_fits(&m.event) {
        return Err(WireError::ExcessiveLength);
    }
    let mut out: Vec<u8> = Vec::new();
    push_u64(&mut out, m.id);
    push_client_event(&mut out, &m.event);
    assert(out@ =~= spec_enc_icon_client(m@));
    Ok(out)
}

/// Encodes the payload of a host-to-guest frame.  Fails exactly when a
/// string in the event is too large for its 32-bit count.
pub fn encode_server_payload(m: &IconServerEvent) -> (r: Result<Vec<u8>, WireError>)
    ensures
        r is Ok <==> wf_server_event(m.event@),
        r matches Ok(v) ==> v@ == spec_enc_icon_server(m@),
        r is Err ==> r == Err::<Vec<u8>, WireError>(WireError::ExcessiveLength),
{
    if !server_event_fits(&m.event) {
        return Err(WireError::ExcessiveLength);
    }
    let mut out: Vec<u8> = Vec::new();
    push_u64(&mut out, m.id);
    push_server_event(&mut out, &m.event);
    assert(out@ =~= spec_enc_icon_server(m@));
    Ok(out)
}

/// Bytes of a whole frame: the payload's length as 32-bit little-endian,
/// then the payload.  Fails exactly when the payload exceeds the frame
/// limit.
pub fn frame_bytes(payload: Vec<u8>) -> (r: Result<Vec<u8>, WireError>)
    ensures
        r is Ok <==> payload@.len() <= MAX_FRAME_LEN,
        r matches Ok(v) ==> v@ == spec_u32_to_le_bytes(payload@.len() as u32) + payload@,
        r is Err ==> r == Err::<Vec<u8>, WireError>(WireError::ExcessiveLength),
{
    if !((payload.len() as u64) <= MAX_FRAME_LEN as u64) {
        return Err(WireError::ExcessiveLength);
    }
    let mut out: Vec<u8> = Vec::new();
    push_u32(&mut out, payload.len() as u32);
    let ghost mid = out@;
    let mut p = payload;
    out.append(&mut p);
    assert(out@ =~= spec_u32_to_le_bytes(payload@.len() as u32) + payload@);
    Ok(out)
}

// ---------------------------------------------------------------------------
// Executable decoding.  Each reader takes a position into the buffer and
// returns the decoded value with the position after it.
// ---------------------------------------------------------------------------

fn read_u8(b: &[u8], pos: usize) -> (r: Option<(u8, usize)>)
    requires
        pos <= b@.len(),
    ensures
        r matches Some(v) ==> spec_dec_u8(b@.skip(pos as int)) == Some((v.0, v.1 - pos as int))
            && pos < v.1 <= b@.len(),
        r is None ==> spec_dec_u8(b@.skip(pos as int)) is None,
{
    if pos < b.len() {
        let x = *vstd::slice::slice_index_get(b, pos);
        assert(b@.skip(pos as int)[0] == b@[pos as int]);
        Some((x, pos + 1))
    } else {
        None
    }
}

fn read_u32(b: &[u8], pos: usize) -> (r: Option<(u32, usize)>)
    requires
        pos <= b@.len(),
    ensures
        r matches Some(v) ==> spec_dec_u32(b@.skip(pos as int)) == Some((v.0, v.1 - pos as int))
            && pos < v.1 <= b@.len() && v.1 == pos + 4,
        r is None ==> spec_dec_u32(b@.skip(pos as int)) is None,
{
    if b.len() - pos >= 4 {
        let s = vstd::slice::slice_subrange(b, pos, pos + 4);
        let x = u32_from_le_bytes(s);
        assert(b@.skip(pos as int).subrange(0, 4) =~= b@.subrange(pos as int, pos as int + 4));
        Some((x, pos + 4))
    } else {
        None
    }
}

fn read_u64(b: &[u8], pos: usize) -> (r: Option<(u64, usize)>)
    requires
        pos <= b@.len(),
    ensures
        r matches Some(v) ==> spec_dec_u64(b@.skip(pos as int)) == Some((v.0, v.1 - pos as int))
            && pos < v.1 <= b@.len() && v.1 == pos + 8,
        r is None ==> spec_dec_u64(b@.skip(pos as int)) is None,
{
    if b.len() - pos >= 8 {
        let s = vstd::slice::slice_subrange(b, pos, pos + 8);
        let x = u64_from_le_bytes(s);
        assert(b@.skip(pos as int).subrange(0, 8) =~= b@.subrange(pos as int, pos as int + 8));
        Some((x, pos + 8))
    } else {
        None
    }
}

fn read_bytes(b: &[u8], pos: usize) -> (r: Option<(Vec<u8>, usize)>)
    requires
        pos <= b@.len(),
    ensures
        r matches Some(v) ==> spec_dec_bytes(b@.skip(pos as int)) == Some(
            (v.0@, v.1 - pos as int),
        ) && pos < v.1 <= b@.len(),
        r is None ==> spec_dec_bytes(b@.skip(pos as int)) is None,
{
    match read_u32(b, pos) {
        None => None,
        Some((n, p)) => {
            if (n as u64) <= (b.len() - p) as u64 {
                let end = p + n as usize;
                let v = vstd::slice::slice_to_vec(vstd::slice::slice_subrange(b, p, end));
                assert(b@.skip(pos as int).subrange(4, 4 + n as int) =~= b@.subrange(
                    p as int,
                    end as int,
                ));
                Some((v, end))
            } else {
                None
            }
        },
    }
}

fn read_string(b: &[u8], pos: usize) -> (r: Option<(String, usize)>)
    requires
        pos <= b@.len(),
    ensures
        r matches Some(v) ==> spec_dec_str(b@.skip(pos as int)) == Some(
            (v.0@, v.1 - pos as int),
        ) && pos < v.1 <= b@.len(),
        r is None ==> spec_dec_str(b@.skip(pos as int)) is None,
{
    match read_bytes(b, pos) {
        None => None,
        Some((bytes, p)) => {
            match string_from_utf8(bytes) {
                None => None,
                Some(s) => Some((s, p)),
            }
        },
    }
}

fn read_bool(b: &[u8], pos: usize) -> (r: Option<(bool, usize)>)
    requires
        pos <= b@.len(),
    ensures
        r matches Some(v) ==> spec_dec_bool(b@.skip(pos as int)) == Some((v.0, v.1 - pos as int))
            && pos < v.1 <= b@.len(),
        r is None ==> spec_dec_bool(b@.skip(pos as int)) is None,
{
    match read_u8(b, pos) {
        None => None,
        Some((x, p)) => {
            if x == 0 {
                Some((false, p))
            } else if x == 1 {
                Some((true, p))
            } else {
                None
            }
        },
    }
}

fn read_opt_str(b: &[u8], pos: usize) -> (r: Option<(Option<String>, usize)>)
    requires
        pos <= b@.len(),
    ensures
        r matches Some(v) ==> spec_dec_opt_str(b@.skip(pos as int)) == Some(
            (v.0.deep_view(), v.1 - pos as int),
        ) && pos < v.1 <= b@.len(),
        r is None ==> spec_dec_opt_str(b@.skip(pos as int)) is None,
{
    match read_u8(b, pos) {
        None => None,
        Some((x, p)) => {
            if x == 0 {
                Some((None, p))
            } else if x == 1 {
                assert(b@.skip(pos as int).skip(1) =~= b@.skip(p as int));
                match read_string(b, p) {
                    None => None,
                    Some((s, p2)) => Some((Some(s), p2)),
                }
            } else {
                None
            }
        },
    }
}

fn read_icon_type(b: &[u8], pos: usize) -> (r: Option<(IconType, usize)>)
    requires
        pos <= b@.len(),
    ensures
        r matches Some(v) ==> spec_dec_icon_type(b@.skip(pos as int)) == Some(
            (v.0, v.1 - pos as int),
        ) && pos < v.1 <= b@.len(),
        r is None ==> spec_dec_icon_type(b@.skip(pos as int)) is None,
{
    match read_u8(b, pos) {
        None => None,
        Some((x, p)) => {
            if x == 1 {
                Some((IconType::Normal, p))
            } else if x == 2 {
                Some((IconType::Overlay, p))
            } else if x == 4 {
                Some((IconType::Attention, p))
            } else if x == 8 {
                Some((IconType::Status, p))
            } else if x == 16 {
                Some((IconType::Title, p))
            } else {
                None
            }
        },
    }
}

fn read_icon_data(b: &[u8], pos: usize) -> (r: Option<(IconData, usize)>)
    requires
        pos <= b@.len(),
    ensures
        r matches Some(v) ==> spec_dec_icon_data(b@.skip(pos as int)) == Some(
            (v.0@, v.1 - pos as int),
        ) && pos < v.1 <= b@.len(),
        r is None ==> spec_dec_icon_data(b@.skip(pos as int)) is None,
{
    match read_u32(b, pos) {
        None => None,
        Some((w, p1)) => {
            assert(b@.skip(pos as int).skip(4) =~= b@.skip(p1 as int));
            match read_u32(b, p1) {
                None => None,
                Some((h, p2)) => {
                    assert(b@.skip(pos as int).skip(8) =~= b@.skip(p2 as int));
                    match read_bytes(b, p2) {
                        None => None,
                        Some((data, p3)) => Some((IconData { width: w, height: h, data }, p3)),
                    }
                },
            }
        },
    }
}

fn read_icon_list(b: &[u8], pos: usize) -> (r: Option<(Vec<IconData>, usize)>)
    requires
        pos <= b@.len(),
    ensures
        r matches Some(v) ==> spec_dec_icon_list(b@.skip(pos as int)) == Some(
            (v.0.deep_view(), v.1 - pos as int),
        ) && pos <= v.1 <= b@.len(),
        r is None ==> spec_dec_icon_list(b@.skip(pos as int)) is None,
{
    match read_u32(b, pos) {
        None => None,
        Some((n, start)) => {
            assert(b@.skip(pos as int).skip(4) =~= b@.skip(start as int));
            let ghost t0 = b@.skip(start as int);
            let mut acc: Vec<IconData> = Vec::new();
            let mut p: usize = start;
            let mut i: u32 = 0;
            assert(acc.deep_view() =~= Seq::<IconDataView>::empty());
            while i < n
                invariant
                    0 <= i <= n,
                    pos <= start <= p <= b@.len(),
                    t0 == b@.skip(start as int),
                    spec_dec_u32(b@.skip(pos as int)) == Some((n, 4int)),
                    t0 == b@.skip(pos as int).skip(4),
                    i as int == acc.deep_view().len(),
                    spec_dec_icon_items(t0, n as nat) == (match spec_dec_icon_items(
                        b@.skip(p as int),
                        (n - i) as nat,
                    ) {
                        Option::None => None::<(Seq<IconDataView>, int)>,
                        Option::Some(t) => Some(
                            (acc.deep_view() + t.0, (p - start) as int + t.1),
                        ),
                    }),
                decreases n - i,
            {
                match read_icon_data(b, p) {
                    None => {
                        return None;
                    },
                    Some((d, p2)) => {
                        assert(b@.skip(p as int).skip(p2 - p as int) =~= b@.skip(p2 as int));
                        let ghost old_acc = acc.deep_view();
                        acc.push(d);
                        proof {
                            assert(acc.deep_view() =~= old_acc.push(d@));
                            assert forall|t: (Seq<IconDataView>, int)|
                                spec_dec_icon_items(b@.skip(p2 as int), (n - i - 1) as nat)
                                    == Some(t) implies old_acc.push(d@) + t.0 =~= old_acc + (seq![
                                d@,
                            ] + t.0) by {}
                        }
                        p = p2;
                        i = i + 1;
                    },
                }
            }
            assert(spec_dec_icon_items(b@.skip(p as int), 0nat) == Some(
                (Seq::<IconDataView>::empty(), 0int),
            ));
            assert(acc.deep_view() + Seq::<IconDataView>::empty() =~= acc.deep_view());
            Some((acc, p))
        },
    }
}

/// Decodes one guest-to-host event from the given position.
#[verifier::rlimit(100)]
fn read_client_event(b: &[u8], pos: usize) -> (r: Option<(ClientEvent, usize)>)
    requires
        pos <= b@.len(),
    ensures
        r matches Some(v) ==> spec_dec_client_event(b@.skip(pos as int)) == Some(
            (v.0@, v.1 - pos as int),
        ) && pos < v.1 <= b@.len(),
        r is None ==> spec_dec_client_event(b@.skip(pos as int)) is None,
{
    match read_u8(b, pos) {
        None => None,
        Some((tag, p)) => {
            assert(b@.skip(pos as int).skip(1) =~= b@.skip(p as int));
            if tag == 0 {
                match read_string(b, p) {
                    None => None,
                    Some((category, p1)) => {
                        assert(b@.skip(p as int).skip(p1 - p as int) =~= b@.skip(p1 as int));
                        match read_string(b, p1) {
                            None => None,
                            Some((app_id, p2)) => {
                                assert(b@.skip(p as int).skip(p2 - p as int) =~= b@.skip(
                                    p2 as int,
                                ));
                                match read_bool(b, p2) {
                                    None => None,
                                    Some((is_menu, p3)) => Some(
                                        (ClientEvent::Create { category, app_id, is_menu }, p3),
                                    ),
                                }
                            },
                        }
                    },
                }
            } else if tag == 1 {
                match read_opt_str(b, p) {
                    None => None,
                    Some((t, p1)) => Some((ClientEvent::Title(t), p1)),
                }
            } else if tag == 2 {
                match read_opt_str(b, p) {
                    None => None,
                    Some((t, p1)) => Some((ClientEvent::Status(t), p1)),
                }
            } else if tag == 3 {
                match read_icon_type(b, p) {
                    None => None,
                    Some((typ, p1)) => {
                        assert(b@.skip(p as int).skip(p1 - p as int) =~= b@.skip(p1 as int));
                        match read_icon_list(b, p1) {
                            None => None,
                            Some((data, p2)) => Some((ClientEvent::Icon { typ, data }, p2)),
                        }
                    },
                }
            } else if tag == 4 {
                match read_icon_type(b, p) {
                    None => None,
                    Some((typ, p1)) => Some((ClientEvent::RemoveIcon(typ), p1)),
                }
            } else if tag == 5 {
                Some((ClientEvent::Destroy, p))
            } else if tag == 6 {
                match read_icon_list(b, p) {
                    None => None,
                    Some((icon_data, p1)) => {
                        assert(b@.skip(p as int).skip(p1 - p as int) =~= b@.skip(p1 as int));
                        match read_string(b, p1) {
                            None => None,
                            Some((title, p2)) => {
                                assert(b@.skip(p as int).skip(p2 - p as int) =~= b@.skip(
                                    p2 as int,
                                ));
                                match read_string(b, p2) {
                                    None => None,
                                    Some((description, p3)) => Some(
                                        (
                                            ClientEvent::Tooltip {
                                                icon_data,
                                                title,
                                                description,
                                            },
                                            p3,
                                        ),
                                    ),
                                }
                            },
                        }
                    },
                }
            } else if tag == 7 {
                Some((ClientEvent::RemoveTooltip, p))
            } else {
                None
            }
        },
    }
}

/// Decodes one host-to-guest event from the given position.
fn read_server_event(b: &[u8], pos: usize) -> (r: Option<(ServerEvent, usize)>)
    requires
        pos <= b@.len(),
    ensures
        r matches Some(v) ==> spec_dec_server_event(b@.skip(pos as int)) == Some(
            (v.0@, v.1 - pos as int),
        ) && pos < v.1 <= b@.len(),
        r is None ==> spec_dec_server_event(b@.skip(pos as int)) is None,
{
    match read_u8(b, pos) {
        None => None,
        Some((tag, p)) => {
            assert(b@.skip(pos as int).skip(1) =~= b@.skip(p as int));
            if tag == 3 {
                match read_u32(b, p) {
                    None => None,
                    Some((delta, p1)) => {
                        assert(b@.skip(p as int).skip(4) =~= b@.skip(p1 as int));
                        match read_string(b, p1) {
                            None => None,
                            Some((orientation, p2)) => Some(
                                (
                                    ServerEvent::Scroll {
                                        delta: bits_to_i32(delta),
                                        orientation,
                                    },
                                    p2,
                                ),
                            ),
                        }
                    },
                }
            } else if tag == 0 || tag == 1 || tag == 2 {
                match read_u32(b, p) {
                    None => None,
                    Some((xb, p1)) => {
                        assert(b@.skip(p as int).skip(4) =~= b@.skip(p1 as int));
                        match read_u32(b, p1) {
                            None => None,
                            Some((yb, p2)) => {
                                let x = bits_to_i32(xb);
                                let y = bits_to_i32(yb);
                                let ev = if tag == 0 {
                                    ServerEvent::Activate { x, y }
                                } else if tag == 1 {
                                    ServerEvent::ContextMenu { x, y }
                                } else {
                                    ServerEvent::SecondaryActivate { x, y }
                                };
                                Some((ev, p2))
                            },
                        }
                    },
                }
            } else {
                None
            }
        },
    }
}

/// Decodes a whole guest-to-host frame payload.  Fails exactly when the
/// bytes are not the encoding of one event: truncation, an unknown tag,
/// invalid UTF-8, or bytes left over after the event.
pub fn decode_client_payload(b: &[u8]) -> (r: Result<IconClientEvent, WireError>)
    ensures
        r is Ok <==> spec_dec_icon_client(b@) is Some,
        r matches Ok(m) ==> Some(m@) == spec_dec_icon_client(b@),
        r is Err ==> r == Err::<IconClientEvent, WireError>(WireError::MalformedFrame),
{
    assert(b@.skip(0) =~= b@);
    match read_u64(b, 0) {
        None => Err(WireError::MalformedFrame),
        Some((id, p)) => {
            match read_client_event(b, p) {
                None => Err(WireError::MalformedFrame),
                Some((event, p2)) => {
                    if p2 == b.len() {
                        Ok(IconClientEvent { id, event })
                    } else {
                        Err(WireError::MalformedFrame)
                    }
                },
            }
        },
    }
}

/// Decodes a whole host-to-guest frame payload.  Fails exactly when the
/// bytes are not the encoding of one event: truncation, an unknown tag,
/// invalid UTF-8, or bytes left over after the event.
pub fn decode_server_payload(b: &[u8]) -> (r: Result<IconServerEvent, WireError>)
    ensures
        r is Ok <==> spec_dec_icon_server(b@) is Some,
        r matches Ok(m) ==> Some(m@) == spec_dec_icon_server(b@),
        r is Err ==> r == Err::<IconServerEvent, WireError>(WireError::MalformedFrame),
{
    assert(b@.skip(0) =~= b@);
    match read_u64(b, 0) {
        None => Err(WireError::MalformedFrame),
        Some((id, p)) => {
            match read_server_event(b, p) {
                None => Err(WireError::MalformedFrame),
                Some((event, p2)) => {
                    if p2 == b.len() {
                        Ok(IconServerEvent { id, event })
                    } else {
                        Err(WireError::MalformedFrame)
                    }
                },
            }
        },
    }
}

/// Reads a frame length prefix.  Refuses a length over the frame limit
/// before anything is allocated for the payload.
pub fn parse_frame_len(prefix: &[u8]) -> (r: Result<usize, WireError>)
    requires
        prefix@.len() == 4,
    ensures
        r is Ok <==> spec_u32_from_le_bytes(prefix@) <= MAX_FRAME_LEN,
        r matches Ok(n) ==> n == spec_u32_from_le_bytes(prefix@),
        r is Err ==> r == Err::<usize, WireError>(WireError::ExcessiveLength),
{
    let n = u32_from_le_bytes(prefix);
    if n > MAX_FRAME_LEN {
        Err(WireError::ExcessiveLength)
    } else {
        Ok(n as usize)
    }
}

} // verus!
