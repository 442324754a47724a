//! App-id sanitization.
//!
//! A forwarded app id is namespaced by a fixed prefix.  If the result is a
//! valid bus interface name it is used as is; otherwise it is replaced by
//! a second prefix followed by the lowercase hex SHA-256 digest of the
//! namespaced candidate's bytes.

use vstd::prelude::*;
use vstd::utf8::encode_utf8;

use sha2::Digest;

verus! {

/// Characters allowed inside an interface-name element.
pub open spec fn is_elem_char(c: char) -> bool {
    ||| 'a' <= c <= 'z'
    ||| 'A' <= c <= 'Z'
    ||| '0' <= c <= '9'
    ||| c == '_'
}

pub open spec fn is_digit_char(c: char) -> bool {
    '0' <= c <= '9'
}

/// The bus interface-name grammar: one to 255 characters, two or more
/// nonempty elements of `[A-Za-z0-9_]` separated by single dots, no
/// element starting with a digit.
pub open spec fn spec_valid_interface_name(s: Seq<char>) -> bool {
    &&& 0 < s.len() <= 255
    &&& forall|i: int| 0 <= i < s.len() ==> is_elem_char(#[trigger] s[i]) || s[i] == '.'
    &&& s[0] != '.'
    &&& !is_digit_char(s[0])
    &&& s[s.len() - 1] != '.'
    &&& exists|i: int| 0 <= i < s.len() && s[i] == '.'
    &&& forall|i: int|
        0 <= i < s.len() - 1 && #[trigger] s[i] == '.' ==> s[i + 1] != '.' && !is_digit_char(
            s[i + 1],
        )
}

fn elem_char(c: char) -> (b: bool)
    ensures
        b == is_elem_char(c),
{
    let u = c as u32;
    ('a' as u32 <= u && u <= 'z' as u32) || ('A' as u32 <= u && u <= 'Z' as u32) || ('0' as u32
        <= u && u <= '9' as u32) || c == '_'
}

fn digit_char(c: char) -> (b: bool)
    ensures
        b == is_digit_char(c),
{
    let u = c as u32;
    '0' as u32 <= u && u <= '9' as u32
}

/// Checks the bus interface-name grammar.
pub fn is_valid_interface_name(s: &str) -> (b: bool)
    ensures
        b == spec_valid_interface_name(s@),
{
    let n = s.unicode_len();
    if n == 0 || n > 255 {
        return false;
    }
    let first = s.get_char(0);
    if first == '.' || digit_char(first) {
        return false;
    }
    let last = s.get_char(n - 1);
    if last == '.' {
        return false;
    }
    let mut has_dot: bool = false;
    let mut i: usize = 0;
    while i < n
        invariant
            0 < n <= 255,
            n == s@.len(),
            0 <= i <= n,
            forall|j: int| 0 <= j < i ==> is_elem_char(#[trigger] s@[j]) || s@[j] == '.',
            has_dot == exists|j: int| 0 <= j < i && s@[j] == '.',
            forall|j: int|
                0 <= j < i - 1 && #[trigger] s@[j] == '.' ==> s@[j + 1] != '.' && !is_digit_char(
                    s@[j + 1],
                ),
            i > 0 && s@[i - 1] == '.' ==> i < n && s@[i as int] != '.' && !is_digit_char(
                s@[i as int],
            ),
        decreases n - i,
    {
        let c = s.get_char(i);
        if c == '.' {
            if i + 1 >= n {
                return false;
            }
            let next = s.get_char(i + 1);
            if next == '.' || digit_char(next) {
                return false;
            }
            has_dot = true;
        } else {
            if !elem_char(c) {
                return false;
            }
        }
        i = i + 1;
    }
    has_dot
}

// ---------------------------------------------------------------------------
// Lowercase hex encoding.
// ---------------------------------------------------------------------------

/// The lowercase hex digit for a value below 16.
pub open spec fn hex_digit(n: u8) -> char
    recommends
        n < 16,
{
    if n == 0 {
        '0'
    } else if n == 1 {
        '1'
    } else if n == 2 {
        '2'
    } else if n == 3 {
        '3'
    } else if n == 4 {
        '4'
    } else if n == 5 {
        '5'
    } else if n == 6 {
        '6'
    } else if n == 7 {
        '7'
    } else if n == 8 {
        '8'
    } else if n == 9 {
        '9'
    } else if n == 10 {
        'a'
    } else if n == 11 {
        'b'
    } else if n == 12 {
        'c'
    } else if n == 13 {
        'd'
    } else if n == 14 {
        'e'
    } else {
        'f'
    }
}

/// Two lowercase hex digits per byte, high nibble first.
pub open spec fn hex_of(bytes: Seq<u8>) -> Seq<char>
    decreases bytes.len(),
{
    if bytes.len() == 0 {
        Seq::empty()
    } else {
        seq![hex_digit(bytes[0] / 16), hex_digit(bytes[0] % 16)] + hex_of(bytes.drop_first())
    }
}

pub proof fn lemma_hex_of_len(bytes: Seq<u8>)
    ensures
        hex_of(bytes).len() == 2 * bytes.len(),
    decreases bytes.len(),
{
    if bytes.len() > 0 {
        lemma_hex_of_len(bytes.drop_first());
    }
}

/// True of the sixteen lowercase hex digit characters.
pub open spec fn is_lower_hex_char(c: char) -> bool {
    ('0' <= c <= '9') || ('a' <= c <= 'f')
}

pub proof fn lemma_hex_digit_lower_hex(n: u8)
    requires
        n < 16,
    ensures
        is_lower_hex_char(hex_digit(n)),
{
}

pub proof fn lemma_hex_of_chars(bytes: Seq<u8>)
    ensures
        forall|i: int| 0 <= i < hex_of(bytes).len() ==> is_lower_hex_char(#[trigger] hex_of(bytes)[i]),
    decreases bytes.len(),
{
    if bytes.len() > 0 {
        lemma_hex_of_chars(bytes.drop_first());
        lemma_hex_digit_lower_hex(bytes[0] / 16);
        lemma_hex_digit_lower_hex(bytes[0] % 16);
        assert forall|i: int| 0 <= i < hex_of(bytes).len() implies is_lower_hex_char(
            #[trigger] hex_of(bytes)[i],
        ) by {
            if i >= 2 {
                assert(hex_of(bytes)[i] == hex_of(bytes.drop_first())[i - 2]);
            }
        }
    }
}

proof fn lemma_hex_of_push(bytes: Seq<u8>, b: u8)
    ensures
        hex_of(bytes.push(b)) == hex_of(bytes) + seq![hex_digit(b / 16), hex_digit(b % 16)],
    decreases bytes.len(),
{
    if bytes.len() == 0 {
        assert(bytes.push(b)[0] == b);
        assert(bytes.push(b).drop_first() =~= Seq::<u8>::empty());
        assert(hex_of(Seq::<u8>::empty()) == Seq::<char>::empty());
        assert(bytes =~= Seq::<u8>::empty());
        assert(hex_of(bytes.push(b)) =~= hex_of(bytes) + seq![
            hex_digit(b / 16),
            hex_digit(b % 16),
        ]);
    } else {
        assert(bytes.push(b).drop_first() =~= bytes.drop_first().push(b));
        lemma_hex_of_push(bytes.drop_first(), b);
        assert(hex_of(bytes.push(b)) =~= hex_of(bytes) + seq![
            hex_digit(b / 16),
            hex_digit(b % 16),
        ]);
    }
}

fn push_hex_digit(out: &mut String, n: u8)
    requires
        n < 16,
    ensures
        final(out)@ == old(out)@ + seq![hex_digit(n)],
{
    proof {
        reveal_strlit("0");
        reveal_strlit("1");
        reveal_strlit("2");
        reveal_strlit("3");
        reveal_strlit("4");
        reveal_strlit("5");
        reveal_strlit("6");
        reveal_strlit("7");
        reveal_strlit("8");
        reveal_strlit("9");
        reveal_strlit("a");
        reveal_strlit("b");
        reveal_strlit("c");
        reveal_strlit("d");
        reveal_strlit("e");
        reveal_strlit("f");
    }
    if n == 0 {
        out.append("0");
    } else if n == 1 {
        out.append("1");
    } else if n == 2 {
        out.append("2");
    } else if n == 3 {
        out.append("3");
    } else if n == 4 {
        out.append("4");
    } else if n == 5 {
        out.append("5");
    } else if n == 6 {
        out.append("6");
    } else if n == 7 {
        out.append("7");
    } else if n == 8 {
        out.append("8");
    } else if n == 9 {
        out.append("9");
    } else if n == 10 {
        out.append("a");
    } else if n == 11 {
        out.append("b");
    } else if n == 12 {
        out.append("c");
    } else if n == 13 {
        out.append("d");
    } else if n == 14 {
        out.append("e");
    } else {
        out.append("f");
    }
    assert(final(out)@ =~= old(out)@ + seq![hex_digit(n)]);
}

/// Appends the lowercase hex form of the bytes.
fn push_hex(out: &mut String, bytes: &[u8])
    ensures
        final(out)@ == old(out)@ + hex_of(bytes@),
{
    let n = bytes.len();
    let mut i: usize = 0;
    assert(hex_of(bytes@.take(0)) =~= Seq::<char>::empty());
    assert(out@ =~= old(out)@ + hex_of(bytes@.take(0)));
    while i < n
        invariant
            0 <= i <= n,
            n == bytes@.len(),
            out@ == old(out)@ + hex_of(bytes@.take(i as int)),
        decreases n - i,
    {
        let b = *vstd::slice::slice_index_get(bytes, i);
        let hi = b / 16;
        let lo = b % 16;
        push_hex_digit(out, hi);
        push_hex_digit(out, lo);
        proof {
            lemma_hex_of_push(bytes@.take(i as int), b);
            assert(bytes@.take(i + 1) =~= bytes@.take(i as int).push(b));
        }
        i = i + 1;
    }
    assert(bytes@.take(n as int) =~= bytes@);
}

// ---------------------------------------------------------------------------
// SHA-256, behind one trusted wrapper.
// ---------------------------------------------------------------------------

/// The SHA-256 digest of the given bytes.
pub uninterp spec fn sha256_of(input: Seq<u8>) -> Seq<u8>;

/// Relies on sha2's `Sha256`: the digest depends on the input bytes
/// alone, and is 32 bytes long.
#[verifier::external_body]
fn sha256(input: &[u8]) -> (r: Vec<u8>)
    ensures
        r@ == sha256_of(input@),
        r@.len() == 32,
{
    let mut h = sha2::Sha256::new();
    h.update(input);
    h.finalize().to_vec()
}

// ---------------------------------------------------------------------------
// Sanitization.
// ---------------------------------------------------------------------------

/// Prefix prepended to every forwarded app id.
pub open spec fn app_id_prefix() -> Seq<char> {
    "org.qubes_os.vm.app_id."@
}

/// Prefix of the substituted form used when the namespaced id is not a
/// valid interface name.
pub open spec fn hashed_app_id_prefix() -> Seq<char> {
    "org.qubes_os.vm.hashed_app_id."@
}

/// The sanitized form of a namespaced candidate: the candidate itself
/// when it is a valid interface name, else the hashed substitution over
/// the candidate's UTF-8 bytes.
pub open spec fn spec_sanitized_name(candidate: Seq<char>) -> Seq<char> {
    if spec_valid_interface_name(candidate) {
        candidate
    } else {
        hashed_app_id_prefix() + hex_of(sha256_of(encode_utf8(candidate)))
    }
}

/// Sanitizing an already-valid candidate changes nothing, so applying
/// the transformation twice is the same as applying it once.
pub proof fn lemma_sanitize_idempotent_on_valid(c: Seq<char>)
    requires
        spec_valid_interface_name(c),
    ensures
        spec_sanitized_name(c) == c,
        spec_sanitized_name(spec_sanitized_name(c)) == spec_sanitized_name(c),
{
}

/// The hashed substitution is itself a valid interface name whenever its
/// digest element does not begin with a digit.
pub proof fn lemma_hashed_name_valid(digest: Seq<u8>)
    requires
        digest.len() == 32,
        !is_digit_char(hex_of(digest)[0]),
    ensures
        spec_valid_interface_name(hashed_app_id_prefix() + hex_of(digest)),
{
    reveal_strlit("org.qubes_os.vm.hashed_app_id.");
    let p = hashed_app_id_prefix();
    let h = hex_of(digest);
    let s = p + h;
    lemma_hex_of_len(digest);
    lemma_hex_of_chars(digest);
    assert(p.len() == 30);
    assert(s.len() == 94);
    assert forall|i: int| 0 <= i < s.len() implies is_elem_char(#[trigger] s[i]) || s[i]
        == '.' by {
        if i < 30 {
            assert(s[i] == p[i]);
        } else {
            assert(s[i] == h[i - 30]);
            assert(is_lower_hex_char(h[i - 30]));
        }
    }
    assert(s[0] == 'o');
    assert(s[s.len() - 1] == h[63]);
    assert(is_lower_hex_char(h[63]));
    assert(s[3] == '.');
    assert forall|i: int|
        0 <= i < s.len() - 1 && #[trigger] s[i] == '.' implies s[i + 1] != '.' && !is_digit_char(
        s[i + 1],
    ) by {
        if i < 29 {
            assert(s[i] == p[i] && s[i + 1] == p[i + 1]);
        } else if i == 29 {
            assert(s[30] == h[0]);
        } else {
            assert(s[i] == h[i - 30]);
            assert(is_lower_hex_char(h[i - 30]));
        }
    }
}

/// Namespaces and sanitizes a forwarded app id: prepends the app-id
/// prefix, keeps the result when it is a valid interface name, and
/// substitutes the hashed form otherwise.
pub fn sanitize_app_id(app_id: &str) -> (r: String)
    ensures
        r@ == spec_sanitized_name(app_id_prefix() + app_id@),
        spec_valid_interface_name(app_id_prefix() + app_id@) ==> r@ == app_id_prefix()
            + app_id@,
        !spec_valid_interface_name(app_id_prefix() + app_id@) ==> r@.len()
            == hashed_app_id_prefix().len() + 64,
{
    let candidate = String::from_str("org.qubes_os.vm.app_id.").concat(app_id);
    if is_valid_interface_name(candidate.as_str()) {
        candidate
    } else {
        let digest = sha256(candidate.as_str().as_bytes());
        let mut out = String::from_str("org.qubes_os.vm.hashed_app_id.");
        push_hex(&mut out, digest.as_slice());
        proof {
            lemma_hex_of_len(digest@);
        }
        out
    }
}

} // verus!
