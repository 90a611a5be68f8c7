//! Recognising the short ASCII words the daemons speak in: policy labels,
//! configuration choices.

use vstd::prelude::*;

verus! {

broadcast use vstd::string::group_string_axioms;

/// The characters of an ASCII word given by its bytes.
pub open spec fn chars_of(word: Seq<u8>) -> Seq<char> {
    word.map_values(|b: u8| b as char)
}

/// An ASCII upper-case letter made lower-case; any other character as it is.
pub open spec fn lower(c: char) -> char {
    if 'A' <= c && c <= 'Z' {
        ((c as u32) + 32) as char
    } else {
        c
    }
}

/// `s` and `word` are the same word, ignoring ASCII case.
pub open spec fn same_ignoring_case(s: Seq<char>, word: Seq<char>) -> bool {
    &&& s.len() == word.len()
    &&& forall|i: int| 0 <= i < s.len() ==> lower(#[trigger] s[i]) == lower(word[i])
}

/// Whether `s` is exactly the ASCII word `word`.
pub fn spells(s: &str, word: &[u8]) -> (r: bool)
    requires
        forall|i: int| 0 <= i < word@.len() ==> #[trigger] word@[i] < 128,
    ensures
        r == (s@ == chars_of(word@)),
{
    if !s.is_ascii() {
        proof {
            let k = choose|k: int| 0 <= k < s@.len() && !('\0' <= #[trigger] s@[k] <= '\u{7f}');
            if s@ == chars_of(word@) {
                assert(s@[k] == chars_of(word@)[k]);
                assert(word@[k] < 128);
            }
        }
        return false;
    }
    let bytes = s.as_bytes();
    proof {
        vstd::utf8::is_ascii_chars_encode_utf8(s@);
    }
    let n = bytes.len();
    if n != word.len() {
        proof {
            if s@ == chars_of(word@) {
                assert(s@.len() == word@.len());
            }
        }
        return false;
    }
    let mut i: usize = 0;
    while i < n
        invariant
            n == bytes@.len(),
            n == s@.len(),
            n == word@.len(),
            i <= n,
            forall|j: int| 0 <= j < word@.len() ==> #[trigger] word@[j] < 128,
            forall|j: int| 0 <= j < s@.len() ==> s@[j] as u8 == bytes@[j],
            forall|j: int| 0 <= j < s@.len() ==> '\0' <= #[trigger] s@[j] <= '\u{7f}',
            forall|j: int| 0 <= j < i ==> s@[j] == #[trigger] chars_of(word@)[j],
        decreases n - i,
    {
        proof {
            let c = s@[i as int];
            assert('\0' <= c <= '\u{7f}');
            assert(c as u8 == bytes@[i as int]);
            assert(c as int == bytes@[i as int] as int);
        }
        if bytes[i] != word[i] {
            proof {
                assert(s@[i as int] != chars_of(word@)[i as int]);
            }
            return false;
        }
        i += 1;
    }
    proof {
        assert(s@ =~= chars_of(word@));
    }
    true
}

/// Whether `s` is the ASCII word `word`, upper or lower case alike.
pub fn spells_ignoring_case(s: &str, word: &[u8]) -> (r: bool)
    requires
        forall|i: int| 0 <= i < word@.len() ==> #[trigger] word@[i] < 128,
    ensures
        r == same_ignoring_case(s@, chars_of(word@)),
{
    if !s.is_ascii() {
        proof {
            let k = choose|k: int| 0 <= k < s@.len() && !('\0' <= #[trigger] s@[k] <= '\u{7f}');
            if same_ignoring_case(s@, chars_of(word@)) {
                assert(lower(s@[k]) == lower(chars_of(word@)[k]));
                assert(word@[k] < 128);
            }
        }
        return false;
    }
    let bytes = s.as_bytes();
    proof {
        vstd::utf8::is_ascii_chars_encode_utf8(s@);
    }
    let n = bytes.len();
    if n != word.len() {
        return false;
    }
    let mut i: usize = 0;
    while i < n
        invariant
            n == bytes@.len(),
            n == s@.len(),
            n == word@.len(),
            i <= n,
            forall|j: int| 0 <= j < word@.len() ==> #[trigger] word@[j] < 128,
            forall|j: int| 0 <= j < s@.len() ==> s@[j] as u8 == bytes@[j],
            forall|j: int| 0 <= j < s@.len() ==> '\0' <= #[trigger] s@[j] <= '\u{7f}',
            forall|j: int| 0 <= j < i ==> lower(#[trigger] s@[j]) == lower(chars_of(word@)[j]),
        decreases n - i,
    {
        let a = bytes[i];
        let b = word[i];
        let la = if 65 <= a && a <= 90 { a + 32 } else { a };
        let lb = if 65 <= b && b <= 90 { b + 32 } else { b };
        proof {
            let c = s@[i as int];
            assert('\0' <= c <= '\u{7f}');
            assert(c as u8 == a);
            assert(c as int == a as int);
            assert(lower(c) as int == la as int);
            assert(lower(chars_of(word@)[i as int]) as int == lb as int);
        }
        if la != lb {
            return false;
        }
        i += 1;
    }
    true
}

/// `p` occurs in `s` at byte `i`.
pub open spec fn occurs_at(s: Seq<u8>, p: Seq<u8>, i: int) -> bool {
    &&& 0 <= i
    &&& i + p.len() <= s.len()
    &&& s.subrange(i, i + p.len()) == p
}

/// `p` occurs somewhere in `s`.
pub open spec fn contains_bytes(s: Seq<u8>, p: Seq<u8>) -> bool {
    exists|i: int| #[trigger] occurs_at(s, p, i)
}

/// The bytes of a text, as it is stored.
pub open spec fn text_bytes(t: Seq<char>) -> Seq<u8> {
    vstd::utf8::encode_utf8(t)
}

fn occurs(s: &[u8], p: &[u8], i: usize) -> (r: bool)
    requires
        i + p@.len() <= s@.len(),
    ensures
        r == occurs_at(s@, p@, i as int),
{
    let n = s.len();
    let mut k: usize = 0;
    while k < p.len()
        invariant
            n == s@.len(),
            i + p@.len() <= s@.len(),
            k <= p@.len(),
            forall|j: int| 0 <= j < k ==> s@[i + j] == #[trigger] p@[j],
        decreases p@.len() - k,
    {
        if s[i + k] != p[k] {
            proof {
                assert(s@.subrange(i as int, i + p@.len())[k as int] != p@[k as int]);
            }
            return false;
        }
        k += 1;
    }
    proof {
        assert(s@.subrange(i as int, i + p@.len()) =~= p@);
    }
    true
}

/// Whether `p` occurs in `s`.
pub fn bytes_contain(s: &[u8], p: &[u8]) -> (r: bool)
    ensures
        r == contains_bytes(s@, p@),
{
    if p.len() > s.len() {
        proof {
            assert forall|i: int| !#[trigger] occurs_at(s@, p@, i) by {}
        }
        return false;
    }
    if p.len() == 0 {
        proof {
            assert(s@.subrange(0, 0) =~= p@);
            assert(occurs_at(s@, p@, 0));
        }
        return true;
    }
    let n = s.len();
    let last = n - p.len();
    let mut i: usize = 0;
    while i <= last
        invariant
            n == s@.len(),
            last == s@.len() - p@.len(),
            p@.len() > 0,
            i <= last + 1,
            forall|j: int| 0 <= j < i ==> !#[trigger] occurs_at(s@, p@, j),
        decreases last + 1 - i,
    {
        if occurs(s, p, i) {
            return true;
        }
        i += 1;
    }
    proof {
        assert forall|j: int| !#[trigger] occurs_at(s@, p@, j) by {
            if 0 <= j && j < i {
            }
        }
    }
    false
}

/// Whether the text `p` occurs in the text `s`, byte for byte.
pub fn text_contains(s: &str, p: &str) -> (r: bool)
    ensures
        r == contains_bytes(text_bytes(s@), text_bytes(p@)),
{
    bytes_contain(s.as_bytes(), p.as_bytes())
}

/// Whether the text `s` begins with the text `p`.
pub fn text_starts_with(s: &str, p: &str) -> (r: bool)
    ensures
        r == occurs_at(text_bytes(s@), text_bytes(p@), 0),
{
    let sb = s.as_bytes();
    let pb = p.as_bytes();
    if pb.len() > sb.len() {
        return false;
    }
    occurs(sb, pb, 0)
}

} // verus!
