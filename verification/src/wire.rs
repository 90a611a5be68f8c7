//! The map library's wire vocabulary: the method names, the parameters
//! that name a saved map, and the base64 the map frames travel in.

use vstd::prelude::*;

verus! {

broadcast use vstd::string::group_string_axioms;

pub const METHOD_ROBOT_MAP_SAVE: &'static str = "robot.map_save";
pub const METHOD_ROBOT_MAP_LIST: &'static str = "robot.map_list";
pub const METHOD_ROBOT_MAP_LOAD: &'static str = "robot.map_load";
pub const METHOD_ROBOT_MAP_MATCH: &'static str = "robot.map_match";
pub const METHOD_ROBOT_MAP_ADOPT: &'static str = "robot.map_adopt";
/// Freezes the live map once the house is mapped.
pub const METHOD_QUACK_MAP_FREEZE: &'static str = "quack.map_freeze";

/// The longest name a saved map may have.
pub const MAX_NAME_LEN: usize = 64;

/// A character allowed in a map name: an ASCII letter or digit, `-` or `_`.
pub open spec fn name_char(c: char) -> bool {
    ||| ('a' <= c && c <= 'z')
    ||| ('A' <= c && c <= 'Z')
    ||| ('0' <= c && c <= '9')
    ||| c == '-'
    ||| c == '_'
}

/// The same test on one byte of an ASCII string.
pub open spec fn name_byte(b: u8) -> bool {
    ||| (97 <= b && b <= 122)
    ||| (65 <= b && b <= 90)
    ||| (48 <= b && b <= 57)
    ||| b == 45
    ||| b == 95
}

/// A valid map name: 1 to 64 characters, each a letter, a digit, `-`
/// or `_`. Such a name cannot climb out of the library's directory.
pub open spec fn spec_valid_name(name: Seq<char>) -> bool {
    &&& name.len() > 0
    &&& name.len() <= MAX_NAME_LEN
    &&& forall|i: int| 0 <= i < name.len() ==> name_char(#[trigger] name[i])
}

/// Whether `name` may become a file name in the map library. A name with
/// a slash or a dot in it is refused rather than sanitised.
pub fn valid_name(name: &str) -> (ok: bool)
    ensures
        ok == spec_valid_name(name@),
{
    if !name.is_ascii() {
        // A non-ASCII character is never allowed.
        proof {
            let k = choose|k: int| 0 <= k < name@.len() && !('\0' <= #[trigger] name@[k] <= '\u{7f}');
            assert(!name_char(name@[k]));
        }
        return false;
    }
    let bytes = name.as_bytes();
    proof {
        vstd::utf8::is_ascii_chars_encode_utf8(name@);
    }
    let n = bytes.len();
    if n == 0 || n > MAX_NAME_LEN {
        return false;
    }
    let mut i: usize = 0;
    while i < n
        invariant
            n == bytes@.len(),
            n == name@.len(),
            i <= n,
            forall|j: int| 0 <= j < name@.len() ==> name@[j] as u8 == bytes@[j],
            forall|j: int| 0 <= j < name@.len() ==> '\0' <= #[trigger] name@[j] <= '\u{7f}',
            forall|j: int| 0 <= j < i ==> name_char(#[trigger] name@[j]),
        decreases n - i,
    {
        let b = bytes[i];
        proof {
            let c = name@[i as int];
            assert(c as u8 == b);
            assert('\0' <= c <= '\u{7f}');
            assert((c as int) < 128);
            assert(c as int == b as int);
        }
        if !(name_byte_exec(b)) {
            proof {
                let c = name@[i as int];
                assert(!name_char(c));
            }
            return false;
        }
        i += 1;
    }
    true
}

/// A valid name has neither a slash nor a dot in it: as a file name in
/// the library it cannot climb out of the directory.
pub proof fn valid_name_stays_in_the_library(name: Seq<char>)
    requires
        spec_valid_name(name),
    ensures
        forall|i: int| 0 <= i < name.len() ==> #[trigger] name[i] != '/' && name[i] != '.',
{
    assert forall|i: int| 0 <= i < name.len() implies #[trigger] name[i] != '/' && name[i] != '.' by {
        assert(name_char(name[i]));
    }
}

/// The valid names are exactly those of 1 to 64 characters, each an ASCII
/// letter of either case, a digit, `-` or `_`.
pub proof fn valid_names_are_letters_digits_dash_underscore(name: Seq<char>)
    ensures
        spec_valid_name(name) <==> {
            &&& 1 <= name.len() <= 64
            &&& forall|i: int|
                0 <= i < name.len() ==> {
                    let c = #[trigger] name[i];
                    ||| 'a' <= c <= 'z'
                    ||| 'A' <= c <= 'Z'
                    ||| '0' <= c <= '9'
                    ||| c == '-'
                    ||| c == '_'
                }
        },
{
}

/// Case does not matter: two names of one length that differ only in
/// which letters stand where a letter stands in both (any case) are both
/// valid or both refused.
pub proof fn letter_case_does_not_matter(a: Seq<char>, b: Seq<char>)
    requires
        a.len() == b.len(),
        forall|i: int|
            0 <= i < a.len() ==> #[trigger] a[i] == b[i] || ((('a' <= a[i] <= 'z') || ('A' <= a[i] <= 'Z')) && (('a'
                <= b[i] <= 'z') || ('A' <= b[i] <= 'Z'))),
    ensures
        spec_valid_name(a) == spec_valid_name(b),
{
    assert(spec_valid_name(a) ==> spec_valid_name(b)) by {
        if spec_valid_name(a) {
            assert forall|i: int| 0 <= i < b.len() implies name_char(#[trigger] b[i]) by {
                assert(name_char(a[i]));
            }
        }
    }
    assert(spec_valid_name(b) ==> spec_valid_name(a)) by {
        if spec_valid_name(b) {
            assert forall|i: int| 0 <= i < a.len() implies name_char(#[trigger] a[i]) by {
                assert(name_char(b[i]));
            }
        }
    }
}

fn name_byte_exec(b: u8) -> (ok: bool)
    ensures
        ok == name_byte(b),
{
    (97 <= b && b <= 122) || (65 <= b && b <= 90) || (48 <= b && b <= 57) || b == 45 || b == 95
}

/// Which saved map. The name becomes a file name, so it is checked
/// before it does.
#[derive(Debug, Clone, PartialEq, Eq)]
pub struct MapNameParams {
    pub name: String,
}

impl MapNameParams {
    pub fn is_valid(&self) -> (ok: bool)
        ensures
            ok == spec_valid_name(self.name@),
    {
        valid_name(self.name.as_str())
    }
}


/// One saved map in the answer to `robot.map_list`.
#[derive(Debug, Clone, PartialEq, Eq)]
pub struct SavedMap {
    pub name: String,
    /// Bytes on disk.
    pub bytes: u64,
    /// Seconds since the Unix epoch when it was last written.
    pub saved_at: u64,
}

/// The answer to `robot.map_list`.
#[derive(Debug, Clone, PartialEq, Eq)]
pub struct SavedMaps {
    pub maps: Vec<SavedMap>,
}

/// Which saved maps to try: one by name, or the whole library.
#[derive(Debug, Clone, PartialEq, Eq, Default)]
pub struct MapMatchParams {
    pub name: Option<String>,
}

impl MapMatchParams {
    /// Whether the request can be answered: the whole library, or one map
    /// under a valid name.
    pub fn is_valid(&self) -> (ok: bool)
        ensures
            ok == match self.name {
                None => true,
                Some(n) => spec_valid_name(n@),
            },
    {
        match &self.name {
            None => true,
            Some(n) => valid_name(n.as_str()),
        }
    }
}

/// `a` comes no later than `b` in byte order, the order names are listed in.
pub open spec fn bytes_le(a: Seq<u8>, b: Seq<u8>) -> bool
    decreases a.len(),
{
    if a.len() == 0 {
        true
    } else if b.len() == 0 {
        false
    } else if a[0] != b[0] {
        a[0] < b[0]
    } else {
        bytes_le(a.skip(1), b.skip(1))
    }
}

/// The bytes a map's name is ordered by.
pub open spec fn name_key(m: SavedMap) -> Seq<u8> {
    vstd::utf8::encode_utf8(m.name@)
}

/// Listed in name order.
pub open spec fn by_name(s: Seq<SavedMap>) -> bool {
    forall|i: int, j: int| 0 <= i < j < s.len() ==> bytes_le(name_key(#[trigger] s[i]), name_key(#[trigger] s[j]))
}

proof fn lemma_bytes_le_total(a: Seq<u8>, b: Seq<u8>)
    ensures
        bytes_le(a, b) || bytes_le(b, a),
    decreases a.len(),
{
    if a.len() > 0 && b.len() > 0 && a[0] == b[0] {
        lemma_bytes_le_total(a.skip(1), b.skip(1));
    }
}

proof fn lemma_bytes_le_trans(a: Seq<u8>, b: Seq<u8>, c: Seq<u8>)
    requires
        bytes_le(a, b),
        bytes_le(b, c),
    ensures
        bytes_le(a, c),
    decreases a.len(),
{
    if a.len() > 0 && b.len() > 0 && c.len() > 0 && a[0] == b[0] && b[0] == c[0] {
        lemma_bytes_le_trans(a.skip(1), b.skip(1), c.skip(1));
    }
}

/// Whether `a` comes strictly before `b` in byte order.
fn bytes_before(a: &[u8], b: &[u8]) -> (lt: bool)
    ensures
        lt == !bytes_le(b@, a@),
{
    let mut i: usize = 0;
    proof {
        assert(a@.skip(0) =~= a@);
        assert(b@.skip(0) =~= b@);
    }
    while i < a.len() && i < b.len() && a[i] == b[i]
        invariant
            i <= a@.len(),
            i <= b@.len(),
            a@.subrange(0, i as int) == b@.subrange(0, i as int),
            bytes_le(b@, a@) == bytes_le(b@.skip(i as int), a@.skip(i as int)),
        decreases a@.len() - i,
    {
        proof {
            let (bs, as_) = (b@.skip(i as int), a@.skip(i as int));
            assert(bs.skip(1) =~= b@.skip(i + 1));
            assert(as_.skip(1) =~= a@.skip(i + 1));
            assert(bs[0] == b@[i as int] && as_[0] == a@[i as int]);
            assert(a@.subrange(0, i + 1) =~= a@.subrange(0, i as int).push(a@[i as int]));
            assert(b@.subrange(0, i + 1) =~= b@.subrange(0, i as int).push(b@[i as int]));
        }
        i += 1;
    }
    proof {
        assert(b@.skip(i as int).len() == b@.len() - i);
        assert(a@.skip(i as int).len() == a@.len() - i);
        if i < a.len() && i < b.len() {
            assert(b@.skip(i as int)[0] == b@[i as int]);
            assert(a@.skip(i as int)[0] == a@[i as int]);
        }
    }
    if i == b.len() {
        false
    } else if i == a.len() {
        true
    } else {
        a[i] < b[i]
    }
}

/// The saved maps in name order, as `robot.map_list` answers them; no
/// map is lost or added.
pub fn sort_by_name(maps: Vec<SavedMap>) -> (out: Vec<SavedMap>)
    ensures
        out@.to_multiset() =~= maps@.to_multiset(),
        by_name(out@),
{
    let ghost all = maps@;
    let mut rest = maps;
    let mut out: Vec<SavedMap> = Vec::new();
    let ghost mut taken: int = 0;
    proof {
        assert(all.take(0) =~= Seq::<SavedMap>::empty());
        assert(all.skip(0) =~= all);
    }
    while rest.len() > 0
        invariant
            0 <= taken <= all.len(),
            rest@ == all.skip(taken),
            out@.to_multiset() =~= all.take(taken).to_multiset(),
            by_name(out@),
        decreases rest@.len(),
    {
        let m = rest.remove(0);
        proof {
            assert(m == all[taken]);
            assert(all.skip(taken).skip(1) =~= all.skip(taken + 1));
        }
        let key = m.name.as_str().as_bytes();
        let mut p: usize = 0;
        loop
            invariant
                p <= out@.len(),
                key@ == name_key(m),
                forall|q: int| 0 <= q < p ==> bytes_le(name_key(#[trigger] out@[q]), name_key(m)),
            ensures
                p <= out@.len(),
                forall|q: int| 0 <= q < p ==> bytes_le(name_key(#[trigger] out@[q]), name_key(m)),
                p < out@.len() ==> bytes_le(name_key(m), name_key(out@[p as int])),
            decreases out@.len() - p,
        {
            if p == out.len() {
                break;
            }
            let later = bytes_before(key, out[p].name.as_str().as_bytes());
            proof {
                lemma_bytes_le_total(name_key(out@[p as int]), name_key(m));
            }
            if later {
                break;
            }
            p += 1;
        }
        let ghost before = out@;
        out.insert(p, m);
        proof {
            assert(out@ == before.insert(p as int, m));
            assert forall|i: int, j: int| 0 <= i < j < out@.len() implies bytes_le(
                name_key(#[trigger] out@[i]),
                name_key(#[trigger] out@[j]),
            ) by {
                if j < p {
                    assert(out@[i] == before[i] && out@[j] == before[j]);
                } else if j == p {
                    assert(out@[i] == before[i]);
                } else if i < p {
                    assert(out@[i] == before[i] && out@[j] == before[j - 1]);
                    assert(bytes_le(name_key(before[i]), name_key(m)));
                    assert(bytes_le(name_key(m), name_key(before[p as int])));
                    if p < j - 1 {
                        assert(bytes_le(name_key(before[p as int]), name_key(before[j - 1])));
                        lemma_bytes_le_trans(name_key(m), name_key(before[p as int]), name_key(before[j - 1]));
                    }
                    lemma_bytes_le_trans(name_key(before[i]), name_key(m), name_key(before[j - 1]));
                } else if i == p {
                    assert(out@[j] == before[j - 1]);
                    if p < j - 1 {
                        assert(bytes_le(name_key(before[p as int]), name_key(before[j - 1])));
                        lemma_bytes_le_trans(name_key(m), name_key(before[p as int]), name_key(before[j - 1]));
                    }
                } else {
                    assert(out@[i] == before[i - 1] && out@[j] == before[j - 1]);
                }
            }
            assert(all.take(taken + 1) =~= all.take(taken).push(m));
            vstd::seq_lib::to_multiset_insert(before, p as int, m);
            vstd::seq_lib::to_multiset_build(all.take(taken), m);
            taken = taken + 1;
        }
    }
    proof {
        assert(all.take(taken) =~= all);
    }
    out
}
} // verus!

verus! {

// ---------------------------------------------------------------------
// Base64 (RFC 4648, standard alphabet, padded)
// ---------------------------------------------------------------------

/// The padding byte, `=`.
pub const PAD: u8 = 61;

/// The alphabet: the character for a six-bit group `v` (`0 <= v < 64`).
pub open spec fn b64_digit(v: int) -> u8 {
    if v < 26 {
        (65 + v) as u8
    } else if v < 52 {
        (97 + (v - 26)) as u8
    } else if v < 62 {
        (48 + (v - 52)) as u8
    } else if v == 62 {
        43u8
    } else {
        47u8
    }
}

/// The six-bit group a byte of base64 text stands for, `None` for a
/// byte outside the alphabet.
pub open spec fn b64_value(c: u8) -> Option<int> {
    if 65 <= c && c <= 90 {
        Some(c - 65)
    } else if 97 <= c && c <= 122 {
        Some(c - 97 + 26)
    } else if 48 <= c && c <= 57 {
        Some(c - 48 + 52)
    } else if c == 43 {
        Some(62)
    } else if c == 47 {
        Some(63)
    } else {
        None
    }
}

/// Byte `i` of a chunk, zero past its end.
pub open spec fn byte_or_zero(s: Seq<u8>, i: int) -> int {
    if i < s.len() { s[i] as int } else { 0 }
}

/// One chunk of one to three bytes as four characters, `=` standing for
/// the bytes it lacks.
pub open spec fn encode_chunk(c: Seq<u8>) -> Seq<u8> {
    let b0 = byte_or_zero(c, 0);
    let b1 = byte_or_zero(c, 1);
    let b2 = byte_or_zero(c, 2);
    seq![
        b64_digit(b0 / 4),
        b64_digit((b0 % 4) * 16 + b1 / 16),
        if c.len() > 1 { b64_digit((b1 % 16) * 4 + b2 / 64) } else { PAD },
        if c.len() > 2 { b64_digit(b2 % 64) } else { PAD },
    ]
}

/// Base64 of `s`: three bytes to four characters, the last chunk padded.
pub open spec fn spec_b64_encode(s: Seq<u8>) -> Seq<u8>
    decreases s.len(),
{
    if s.len() == 0 {
        Seq::empty()
    } else if s.len() <= 3 {
        encode_chunk(s)
    } else {
        encode_chunk(s.take(3)) + spec_b64_encode(s.skip(3))
    }
}

/// The text of [`spec_b64_encode`] as characters.
pub open spec fn spec_b64_text(s: Seq<u8>) -> Seq<char> {
    spec_b64_encode(s).map_values(|b: u8| b as char)
}

/// `s` without its trailing `=`.
pub open spec fn trim_pad(s: Seq<u8>) -> Seq<u8>
    decreases s.len(),
{
    if s.len() > 0 && s.last() == PAD {
        trim_pad(s.drop_last())
    } else {
        s
    }
}

/// Group `i` of a chunk of text, zero past its end (the caller has
/// checked every present byte is in the alphabet).
pub open spec fn value_or_zero(c: Seq<u8>, i: int) -> int {
    if i < c.len() {
        match b64_value(c[i]) {
            Some(v) => v,
            None => 0,
        }
    } else {
        0
    }
}

/// Whether every byte of `c` is in the alphabet.
pub open spec fn all_in_alphabet(c: Seq<u8>) -> bool {
    forall|i: int| 0 <= i < c.len() ==> (#[trigger] b64_value(c[i])) is Some
}

/// The bytes one chunk of two to four characters carries.
pub open spec fn decode_chunk(c: Seq<u8>) -> Seq<u8> {
    let v0 = value_or_zero(c, 0);
    let v1 = value_or_zero(c, 1);
    let v2 = value_or_zero(c, 2);
    let v3 = value_or_zero(c, 3);
    let b0 = (v0 * 4 + v1 / 16) as u8;
    let b1 = ((v1 % 16) * 16 + v2 / 4) as u8;
    let b2 = ((v2 % 4) * 64 + v3) as u8;
    if c.len() == 2 {
        seq![b0]
    } else if c.len() == 3 {
        seq![b0, b1]
    } else {
        seq![b0, b1, b2]
    }
}

/// Base64 text (padding already trimmed) read four characters at a
/// time: `None` for a chunk of one character or a byte outside the
/// alphabet.
pub open spec fn decode_groups(s: Seq<u8>) -> Option<Seq<u8>>
    decreases s.len(),
{
    if s.len() == 0 {
        Some(Seq::empty())
    } else {
        let n = if s.len() < 4 { s.len() } else { 4 };
        let c = s.take(n as int);
        if n == 1 || !all_in_alphabet(c) {
            None
        } else {
            match decode_groups(s.skip(n as int)) {
                Some(rest) => Some(decode_chunk(c) + rest),
                None => None,
            }
        }
    }
}

/// What a base64 reader makes of the bytes of `text`: the padding is
/// trimmed off the end, then the groups are read.
pub open spec fn spec_b64_decode(text: Seq<u8>) -> Option<Seq<u8>> {
    decode_groups(trim_pad(text))
}

/// `Some(head + rest)` where `tail` is `Some(rest)`.
pub open spec fn prepend(head: Seq<u8>, tail: Option<Seq<u8>>) -> Option<Seq<u8>> {
    match tail {
        Some(rest) => Some(head + rest),
        None => None,
    }
}

} // verus!

verus! {

/// `String::push`: appends `c` to `s`.
#[verifier::external_body]
fn push_char(s: &mut String, c: char)
    ensures
        final(s)@ == old(s)@.push(c),
{
    s.push(c);
}

/// The alphabet's byte for a six-bit group.
fn digit(v: u32) -> (d: u8)
    requires
        v < 64,
    ensures
        d == b64_digit(v as int),
        d != PAD,
        d < 128,
{
    if v < 26 {
        65 + v as u8
    } else if v < 52 {
        97 + (v - 26) as u8
    } else if v < 62 {
        48 + (v - 52) as u8
    } else if v == 62 {
        43
    } else {
        47
    }
}

proof fn lemma_groups_of_word(b0: u8, b1: u8, b2: u8)
    ensures
        ({
            let n = ((b0 as u32) << 16u32) | ((b1 as u32) << 8u32) | (b2 as u32);
            &&& (n >> 18u32) & 63u32 == (b0 as u32) / 4
            &&& (n >> 12u32) & 63u32 == ((b0 as u32) % 4) * 16 + (b1 as u32) / 16
            &&& (n >> 6u32) & 63u32 == ((b1 as u32) % 16) * 4 + (b2 as u32) / 64
            &&& n & 63u32 == (b2 as u32) % 64
        }),
{
    assert({
        let n = ((b0 as u32) << 16u32) | ((b1 as u32) << 8u32) | (b2 as u32);
        &&& (n >> 18u32) & 63u32 == (b0 as u32) / 4
        &&& (n >> 12u32) & 63u32 == ((b0 as u32) % 4) * 16 + (b1 as u32) / 16
        &&& (n >> 6u32) & 63u32 == ((b1 as u32) % 16) * 4 + (b2 as u32) / 64
        &&& n & 63u32 == (b2 as u32) % 64
    }) by (bit_vector);
}

proof fn lemma_encode_unfold(s: Seq<u8>, i: int)
    requires
        0 <= i < s.len(),
    ensures
        ({
            let rest = s.skip(i);
            let n = if rest.len() < 3 { rest.len() } else { 3 };
            spec_b64_encode(rest) == encode_chunk(rest.take(n as int)) + spec_b64_encode(s.skip(i + n))
        }),
{
    let rest = s.skip(i);
    let n = if rest.len() < 3 { rest.len() } else { 3 };
    assert(rest.skip(n as int) =~= s.skip(i + n));
    if rest.len() <= 3 {
        assert(rest.take(n as int) =~= rest);
        assert(s.skip(i + n) =~= Seq::<u8>::empty());
        assert(spec_b64_encode(s.skip(i + n)) =~= Seq::<u8>::empty());
    }
}

/// Standard base64 with padding, the encoding map frames' cells travel in
/// ([`crate::map::b64_decode`] is its reader).
pub fn b64_encode(bytes: &[u8]) -> (out: String)
    ensures
        out@ == spec_b64_text(bytes@),
{
    let n = bytes.len();
    let mut out = String::new();
    let ghost mut done: Seq<u8> = Seq::empty();
    let mut i: usize = 0;
    assert(bytes@.skip(0) =~= bytes@);
    while i < n
        invariant
            n == bytes@.len(),
            i <= n,
            out@ == done.map_values(|b: u8| b as char),
            done + spec_b64_encode(bytes@.skip(i as int)) == spec_b64_encode(bytes@),
        decreases n - i,
    {
        let len: usize = if n - i < 3 { n - i } else { 3 };
        proof {
            lemma_encode_unfold(bytes@, i as int);
        }
        let ghost chunk = bytes@.skip(i as int).take(len as int);
        let b0 = bytes[i];
        let b1 = if len > 1 { bytes[i + 1] } else { 0 };
        let b2 = if len > 2 { bytes[i + 2] } else { 0 };
        proof {
            assert(b0 as int == byte_or_zero(chunk, 0));
            assert(b1 as int == byte_or_zero(chunk, 1));
            assert(b2 as int == byte_or_zero(chunk, 2));
            lemma_groups_of_word(b0, b1, b2);
        }
        let w: u32 = ((b0 as u32) << 16u32) | ((b1 as u32) << 8u32) | (b2 as u32);
        let d0 = digit((w >> 18u32) & 63);
        let d1 = digit((w >> 12u32) & 63);
        let d2 = if len > 1 { digit((w >> 6u32) & 63) } else { PAD };
        let d3 = if len > 2 { digit(w & 63) } else { PAD };
        let ghost piece: Seq<u8> = seq![d0, d1, d2, d3];
        assert(piece =~= encode_chunk(chunk));
        push_char(&mut out, d0 as char);
        push_char(&mut out, d1 as char);
        push_char(&mut out, d2 as char);
        push_char(&mut out, d3 as char);
        proof {
            let old_done = done;
            done = done + piece;
            assert(done.map_values(|b: u8| b as char) =~= old_done.map_values(|b: u8| b as char).push(
                d0 as char,
            ).push(d1 as char).push(d2 as char).push(d3 as char));
            assert(old_done + (piece + spec_b64_encode(bytes@.skip(i + len))) =~= done
                + spec_b64_encode(bytes@.skip(i + len)));
        }
        i = i + len;
    }
    proof {
        assert(bytes@.skip(n as int) =~= Seq::<u8>::empty());
        assert(done =~= spec_b64_encode(bytes@));
    }
    out
}

} // verus!

verus! {

proof fn lemma_digit_value(v: int)
    requires
        0 <= v < 64,
    ensures
        b64_value(b64_digit(v)) == Some(v),
        b64_digit(v) != PAD,
        b64_digit(v) < 128,
{
}

proof fn lemma_trim_keeps_a_digit(c: Seq<u8>)
    requires
        c.len() > 0,
        c[0] != PAD,
    ensures
        trim_pad(c).len() > 0,
    decreases c.len(),
{
    if c.last() == PAD {
        lemma_trim_keeps_a_digit(c.drop_last());
    }
}

proof fn lemma_trim_concat(a: Seq<u8>, c: Seq<u8>)
    requires
        trim_pad(c).len() > 0,
    ensures
        trim_pad(a + c) == a + trim_pad(c),
    decreases c.len(),
{
    if c.len() > 0 && c.last() == PAD {
        assert((a + c).drop_last() =~= a + c.drop_last());
        lemma_trim_concat(a, c.drop_last());
    } else {
        assert(c.len() > 0);
        assert((a + c).last() == c.last());
    }
}

proof fn lemma_chunk_round_trip(b: Seq<u8>)
    requires
        1 <= b.len() <= 3,
    ensures
        decode_groups(trim_pad(encode_chunk(b))) == Some(b),
{
    let e = encode_chunk(b);
    let b0 = byte_or_zero(b, 0);
    let b1 = byte_or_zero(b, 1);
    let b2 = byte_or_zero(b, 2);
    let g0 = b0 / 4;
    let g1 = (b0 % 4) * 16 + b1 / 16;
    let g2 = (b1 % 16) * 4 + b2 / 64;
    let g3 = b2 % 64;
    lemma_digit_value(g0);
    lemma_digit_value(g1);
    lemma_digit_value(g2);
    lemma_digit_value(g3);
    let t = e.take(b.len() as int + 1);
    // The padding comes off, and nothing else.
    if b.len() == 1 {
        assert(e.drop_last() =~= e.take(3));
        assert(e.take(3).drop_last() =~= t);
        assert(trim_pad(e.take(3)) == trim_pad(t));
    } else if b.len() == 2 {
        assert(e.drop_last() =~= t);
    } else {
        assert(e =~= t);
    }
    assert(trim_pad(t) == t);
    assert(trim_pad(e) == t);
    let n = t.len();
    assert(t.take(n as int) =~= t);
    assert(t.skip(n as int) =~= Seq::<u8>::empty());
    assert(all_in_alphabet(t));
    assert(value_or_zero(t, 0) == g0);
    assert(value_or_zero(t, 1) == g1);
    if b.len() >= 2 {
        assert(value_or_zero(t, 2) == g2);
    }
    if b.len() >= 3 {
        assert(value_or_zero(t, 3) == g3);
    }
    assert(b1 / 16 < 16);
    assert(g1 / 16 == b0 % 4);
    assert(g0 * 4 + g1 / 16 == b0);
    assert(g2 / 4 == b1 % 16);
    assert((g1 % 16) * 16 + g2 / 4 == b1);
    assert((g2 % 4) * 64 + g3 == b2);
    assert(decode_chunk(t) =~= b);
    assert(decode_chunk(t) + Seq::<u8>::empty() =~= b);
    assert(decode_groups(t.skip(n as int)) == Some(Seq::<u8>::empty()));
    assert(all_in_alphabet(t.take(n as int)));
    assert(decode_groups(t) == prepend(decode_chunk(t), decode_groups(t.skip(n as int))));
}

/// Whatever bytes go in, the base64 reader gives back exactly those bytes
/// from the writer's text.
pub proof fn b64_round_trip(b: Seq<u8>)
    ensures
        spec_b64_decode(spec_b64_encode(b)) == Some(b),
    decreases b.len(),
{
    if b.len() == 0 {
        assert(trim_pad(Seq::<u8>::empty()) =~= Seq::<u8>::empty());
    } else if b.len() <= 3 {
        lemma_chunk_round_trip(b);
    } else {
        let head = encode_chunk(b.take(3));
        let rest = spec_b64_encode(b.skip(3));
        b64_round_trip(b.skip(3));
        let b3 = b.take(3);
        // The rest of the text starts with a digit, so it keeps one.
        let r = b.skip(3);
        if r.len() <= 3 {
            lemma_digit_value(byte_or_zero(r, 0) / 4);
        } else {
            lemma_digit_value(byte_or_zero(r.take(3), 0) / 4);
        }
        lemma_trim_keeps_a_digit(rest);
        lemma_trim_concat(head, rest);
        let t = head + trim_pad(rest);
        let b0 = byte_or_zero(b3, 0);
        let b1 = byte_or_zero(b3, 1);
        let b2 = byte_or_zero(b3, 2);
        let g0 = b0 / 4;
        let g1 = (b0 % 4) * 16 + b1 / 16;
        let g2 = (b1 % 16) * 4 + b2 / 64;
        let g3 = b2 % 64;
        lemma_digit_value(g0);
        lemma_digit_value(g1);
        lemma_digit_value(g2);
        lemma_digit_value(g3);
        assert(t.take(4) =~= head);
        assert(t.skip(4) =~= trim_pad(rest));
        assert(all_in_alphabet(head));
        assert(b1 / 16 < 16);
        assert(g0 * 4 + g1 / 16 == b0);
        assert((g1 % 16) * 16 + g2 / 4 == b1);
        assert((g2 % 4) * 64 + g3 == b2);
        assert(decode_chunk(head) =~= b3);
        assert(b3 + b.skip(3) =~= b);
    }
}

/// The writer's text is ASCII, so its UTF-8 bytes are its characters.
pub proof fn b64_text_bytes(b: Seq<u8>)
    ensures
        vstd::utf8::encode_utf8(spec_b64_text(b)) == spec_b64_encode(b),
    decreases b.len(),
{
    let e = spec_b64_encode(b);
    lemma_encoded_ascii(b);
    let t = spec_b64_text(b);
    assert(vstd::utf8::is_ascii_chars(t));
    vstd::utf8::is_ascii_chars_encode_utf8(t);
    assert forall|i: int| 0 <= i < e.len() implies vstd::utf8::encode_utf8(t)[i] == e[i] by {
        assert(t[i] == e[i] as char);
        assert(e[i] < 128);
    }
    assert(vstd::utf8::encode_utf8(t) =~= e);
}

/// What [`b64_encode`] writes, [`crate::map::b64_decode`] reads back: the
/// text of any bytes decodes to those very bytes.
pub proof fn b64_reader_reads_what_the_writer_wrote(b: Seq<u8>)
    ensures
        spec_b64_decode(vstd::utf8::encode_utf8(spec_b64_text(b))) == Some(b),
{
    b64_text_bytes(b);
    b64_round_trip(b);
}

proof fn lemma_encoded_ascii(b: Seq<u8>)
    ensures
        forall|i: int| 0 <= i < spec_b64_encode(b).len() ==> #[trigger] spec_b64_encode(b)[i] < 128,
    decreases b.len(),
{
    if b.len() == 0 {
    } else if b.len() <= 3 {
        let b0 = byte_or_zero(b, 0);
        let b1 = byte_or_zero(b, 1);
        let b2 = byte_or_zero(b, 2);
        lemma_digit_value(b0 / 4);
        lemma_digit_value((b0 % 4) * 16 + b1 / 16);
        lemma_digit_value((b1 % 16) * 4 + b2 / 64);
        lemma_digit_value(b2 % 64);
    } else {
        let c = b.take(3);
        let b0 = byte_or_zero(c, 0);
        let b1 = byte_or_zero(c, 1);
        let b2 = byte_or_zero(c, 2);
        lemma_digit_value(b0 / 4);
        lemma_digit_value((b0 % 4) * 16 + b1 / 16);
        lemma_digit_value((b1 % 16) * 4 + b2 / 64);
        lemma_digit_value(b2 % 64);
        lemma_encoded_ascii(b.skip(3));
        let h = encode_chunk(c);
        let r = spec_b64_encode(b.skip(3));
        assert forall|i: int| 0 <= i < (h + r).len() implies #[trigger] (h + r)[i] < 128 by {
            if i >= 4 {
                assert((h + r)[i] == r[i - 4]);
            }
        }
    }
}

} // verus!
