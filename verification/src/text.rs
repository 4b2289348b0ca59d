//! Whitespace normalisation and character classification for the validated
//! string wrapper types (titles, names, dialogue text and the like).
//!
//! Every wrapper trims its input and collapses interior whitespace runs to a
//! single space before validating; the specification of that normalisation
//! lives here, together with the character predicates the validators use.

use vstd::prelude::*;
use vstd::string::StrSliceExecFns;

verus! {

/// Whether `c` has the Unicode `White_Space` property; the set of such
/// characters as listed by the Unicode character database.
pub open spec fn is_space_char(c: char) -> bool {
    ||| c == ' '
    ||| c == '\t'
    ||| c == '\n'
    ||| c == '\r'
    ||| c == '\u{0b}'
    ||| c == '\u{0c}'
    ||| c == '\u{85}'
    ||| c == '\u{a0}'
    ||| c == '\u{1680}'
    ||| ('\u{2000}' <= c && c <= '\u{200a}')
    ||| c == '\u{2028}'
    ||| c == '\u{2029}'
    ||| c == '\u{202f}'
    ||| c == '\u{205f}'
    ||| c == '\u{3000}'
}

/// Whether `c` is a control character: a C0 control, delete, or a C1 control.
pub open spec fn is_control_char(c: char) -> bool {
    (c as u32) < 0x20 || (0x7f <= (c as u32) && (c as u32) <= 0x9f)
}

/// Executable check for `is_space_char`.
pub fn space_char(c: char) -> (r: bool)
    ensures
        r == is_space_char(c),
{
    c == ' ' || c == '\t' || c == '\n' || c == '\r' || c == '\u{0b}' || c == '\u{0c}'
        || c == '\u{85}' || c == '\u{a0}' || c == '\u{1680}'
        || ('\u{2000}' <= c && c <= '\u{200a}') || c == '\u{2028}' || c == '\u{2029}'
        || c == '\u{202f}' || c == '\u{205f}' || c == '\u{3000}'
}

/// Executable check for `is_control_char`.
pub fn control_char(c: char) -> (r: bool)
    ensures
        r == is_control_char(c),
{
    let v = c as u32;
    v < 0x20 || (0x7f <= v && v <= 0x9f)
}

/// The state after normalising `s` from the left: the output so far, and
/// whether a whitespace character has been seen since the last word
/// character (so that a separating space is owed before the next word).
pub open spec fn norm_state(s: Seq<char>) -> (Seq<char>, bool)
    decreases s.len(),
{
    if s.len() == 0 {
        (Seq::empty(), false)
    } else {
        let prev = norm_state(s.drop_last());
        let c = s.last();
        if is_space_char(c) {
            (prev.0, true)
        } else if prev.0.len() > 0 && prev.1 {
            (prev.0.push(' ').push(c), false)
        } else {
            (prev.0.push(c), false)
        }
    }
}

/// `s` with leading and trailing whitespace removed and every interior run
/// of whitespace collapsed to a single space.
pub open spec fn normalize_ws(s: Seq<char>) -> Seq<char> {
    norm_state(s).0
}

/// Whether some character of `s` is a control character.
pub open spec fn has_control(s: Seq<char>) -> bool {
    exists|i: int| 0 <= i < s.len() && is_control_char(s[i])
}

/// The shape normalisation guarantees: the result never begins or ends with
/// whitespace, never holds two adjacent whitespace characters, and the only
/// whitespace character it holds is the plain space.
pub proof fn lemma_normalize_ws_shape(s: Seq<char>)
    ensures
        normalize_ws(s).len() > 0 ==> !is_space_char(normalize_ws(s)[0]),
        normalize_ws(s).len() > 0 ==> !is_space_char(normalize_ws(s)[normalize_ws(s).len() - 1]),
        forall|i: int|
            0 < i < normalize_ws(s).len() ==> !(is_space_char(normalize_ws(s)[i - 1])
                && is_space_char(#[trigger] normalize_ws(s)[i])),
        forall|i: int|
            0 <= i < normalize_ws(s).len() && is_space_char(#[trigger] normalize_ws(s)[i])
                ==> normalize_ws(s)[i] == ' ',
    decreases s.len(),
{
    if s.len() > 0 {
        lemma_normalize_ws_shape(s.drop_last());
        let prev = norm_state(s.drop_last());
        let acc = prev.0;
        let r = normalize_ws(s);
        let c = s.last();
        if is_space_char(c) {
            assert(r == acc);
        } else if acc.len() > 0 && prev.1 {
            assert(r == acc.push(' ').push(c));
            assert(r[r.len() - 1] == c);
            assert forall|i: int|
                0 < i < r.len() implies !(is_space_char(r[i - 1]) && is_space_char(
                #[trigger] r[i],
            )) by {
                if i < acc.len() {
                    assert(r[i - 1] == acc[i - 1] && r[i] == acc[i]);
                } else if i == acc.len() {
                    assert(r[i - 1] == acc[acc.len() - 1] && r[i] == ' ');
                } else {
                    assert(r[i] == c);
                }
            }
            assert forall|i: int|
                0 <= i < r.len() && is_space_char(#[trigger] r[i]) implies r[i] == ' ' by {
                if i < acc.len() {
                    assert(r[i] == acc[i]);
                }
            }
        } else {
            assert(r == acc.push(c));
            assert(r[r.len() - 1] == c);
            assert forall|i: int|
                0 < i < r.len() implies !(is_space_char(r[i - 1]) && is_space_char(
                #[trigger] r[i],
            )) by {
                if i < acc.len() {
                    assert(r[i - 1] == acc[i - 1] && r[i] == acc[i]);
                } else {
                    assert(r[i] == c);
                }
            }
            assert forall|i: int|
                0 <= i < r.len() && is_space_char(#[trigger] r[i]) implies r[i] == ' ' by {
                if i < acc.len() {
                    assert(r[i] == acc[i]);
                }
            }
        }
    }
}

/// The number of bytes `s` occupies when encoded as UTF-8.
pub open spec fn utf8_len(s: Seq<char>) -> nat
    decreases s.len(),
{
    if s.len() == 0 {
        0
    } else {
        utf8_len(s.drop_last()) + char_utf8_width(s.last())
    }
}

/// The number of bytes one character occupies when encoded as UTF-8.
pub open spec fn char_utf8_width(c: char) -> nat {
    if (c as u32) < 0x80 {
        1
    } else if (c as u32) < 0x800 {
        2
    } else if (c as u32) < 0x10000 {
        3
    } else {
        4
    }
}

/// Relies on `String::push`, which appends the given character to the end
/// of the string.
#[verifier::external_body]
fn push_char(s: &mut String, c: char)
    ensures
        final(s)@ == old(s)@.push(c),
{
    s.push(c)
}

/// Trims leading and trailing whitespace from `input` and collapses every
/// interior whitespace run to a single space.
pub fn trim_input(input: &str) -> (r: String)
    ensures
        r@ == normalize_ws(input@),
{
    let n = input.unicode_len();
    let mut out = String::new();
    let mut pending = false;
    let mut i: usize = 0;
    while i < n
        invariant
            n == input@.len(),
            i <= n,
            out@ == norm_state(input@.subrange(0, i as int)).0,
            pending == norm_state(input@.subrange(0, i as int)).1,
        decreases n - i,
    {
        let c = input.get_char(i);
        proof {
            assert(input@.subrange(0, i + 1).drop_last() =~= input@.subrange(0, i as int));
            assert(input@.subrange(0, i + 1).last() == input@[i as int]);
        }
        if space_char(c) {
            pending = true;
        } else {
            if out.as_str().unicode_len() > 0 && pending {
                push_char(&mut out, ' ');
            }
            push_char(&mut out, c);
            pending = false;
        }
        i = i + 1;
    }
    proof {
        assert(input@.subrange(0, n as int) =~= input@);
    }
    out
}

/// Whether `s` contains a control character.
pub fn contains_control(s: &str) -> (r: bool)
    ensures
        r == has_control(s@),
{
    let n = s.unicode_len();
    let mut i: usize = 0;
    while i < n
        invariant
            n == s@.len(),
            i <= n,
            forall|j: int| 0 <= j < i ==> !is_control_char(s@[j]),
        decreases n - i,
    {
        let c = s.get_char(i);
        if control_char(c) {
            return true;
        }
        i = i + 1;
    }
    false
}

/// `utf8_len` never shrinks as a sequence is extended on the right.
proof fn lemma_utf8_len_prefix(s: Seq<char>, i: int)
    requires
        0 <= i <= s.len(),
    ensures
        utf8_len(s.subrange(0, i)) <= utf8_len(s),
    decreases s.len() - i,
{
    if i < s.len() {
        lemma_utf8_len_prefix(s, i + 1);
        assert(s.subrange(0, i + 1).drop_last() =~= s.subrange(0, i));
        assert(utf8_len(s.subrange(0, i)) <= utf8_len(s.subrange(0, i + 1)));
    } else {
        assert(s.subrange(0, i) =~= s);
    }
}

/// Whether the UTF-8 encoding of `s` is at most `limit` bytes long.
pub(crate) fn utf8_len_at_most(s: &str, limit: usize) -> (r: bool)
    requires
        limit <= usize::MAX - 4,
    ensures
        r == (utf8_len(s@) <= limit),
{
    let n = s.unicode_len();
    let mut acc: usize = 0;
    let mut i: usize = 0;
    while i < n
        invariant
            n == s@.len(),
            i <= n,
            limit <= usize::MAX - 4,
            acc == utf8_len(s@.subrange(0, i as int)),
            acc <= limit,
        decreases n - i,
    {
        let c = s.get_char(i);
        let w: usize = if (c as u32) < 0x80 {
            1
        } else if (c as u32) < 0x800 {
            2
        } else if (c as u32) < 0x10000 {
            3
        } else {
            4
        };
        proof {
            assert(s@.subrange(0, i + 1).drop_last() =~= s@.subrange(0, i as int));
            assert(s@.subrange(0, i + 1).last() == s@[i as int]);
        }
        if acc + w > limit {
            proof {
                lemma_utf8_len_prefix(s@, i + 1);
            }
            return false;
        }
        acc = acc + w;
        i = i + 1;
    }
    proof {
        assert(s@.subrange(0, n as int) =~= s@);
    }
    true
}

} // verus!
