//! Paths shown as text, the way `{:?}` shows a `std::path::Path` on Unix,
//! without the surrounding quotes.
use vstd::prelude::*;
use vstd::utf8::{
    decode_first_scalar, is_continuation_byte, length_of_first_scalar, pop_first_scalar,
    valid_first_scalar,
};

use crate::util::text::{
    debug_escape, decode_step, escape_debug, invalid_sequence_len, push_char, Utf8Step,
};

verus! {

/// The upper-case hexadecimal digit for a value below 16.
pub open spec fn hex_digit(n: u8) -> char {
    if n < 10 {
        (n + 48) as char
    } else {
        (n + 55) as char
    }
}

/// A byte written as `\xHH`, with upper-case hexadecimal digits.
pub open spec fn hex_escape(b: u8) -> Seq<char> {
    seq!['\\', 'x', hex_digit(b / 16), hex_digit(b % 16)]
}

/// Each byte written as `\xHH`.
pub open spec fn hex_escapes(bs: Seq<u8>) -> Seq<char>
    decreases bs.len(),
{
    if bs.len() == 0 {
        seq![]
    } else {
        hex_escapes(bs.drop_last()) + hex_escape(bs.last())
    }
}

/// Whether the `Debug` formatting of strings leaves a character as it is:
/// printable ASCII other than the backslash and the double quote.
pub open spec fn is_plain_char(c: char) -> bool {
    0x20 <= (c as u32) <= 0x7E && c != '\\' && c != '"'
}

/// How the `Debug` formatting of strings writes one character: a plain
/// character as itself, any other as its escape.
pub open spec fn char_display(c: char) -> Seq<char> {
    if is_plain_char(c) {
        seq![c]
    } else {
        debug_escape(c)
    }
}

/// The text of a path: each well-formed UTF-8 scalar written as the `Debug`
/// formatting of strings writes it, and each byte of an invalid sequence as
/// `\xHH`.
pub open spec fn display_text(b: Seq<u8>) -> Seq<char>
    decreases b.len(),
{
    if b.len() == 0 {
        seq![]
    } else if valid_first_scalar(b) {
        proof {
            assert(1 <= length_of_first_scalar(b) <= b.len());
        }
        char_display(decode_first_scalar(b) as char) + display_text(pop_first_scalar(b))
    } else {
        let n = invalid_sequence_len(b);
        proof {
            assert(1 <= n <= b.len());
        }
        hex_escapes(b.subrange(0, n)) + display_text(b.subrange(n, b.len() as int))
    }
}

/// The upper-case hexadecimal digit for a value below 16.
fn hex_digit_char(n: u8) -> (c: char)
    requires
        n < 16,
    ensures
        c == hex_digit(n),
{
    if n < 10 {
        (n + 48) as char
    } else {
        (n + 55) as char
    }
}

/// The text of a path as `format!("{:?}", path)` shows it, without the
/// surrounding quotes.
pub fn display_path(path: &[u8]) -> (s: String)
    ensures
        s@ == display_text(path@),
{
    let mut s = String::new();
    let mut i: usize = 0;
    assert(path@.subrange(0, path@.len() as int) =~= path@);
    while i < path.len()
        invariant
            i <= path.len(),
            s@ + display_text(path@.subrange(i as int, path@.len() as int)) == display_text(path@),
        decreases path.len() - i,
    {
        let ghost rest = path@.subrange(i as int, path@.len() as int);
        let ghost before = s@;
        match decode_step(path, i) {
            Utf8Step::Scalar(c, n) => {
                let code: u32 = c as u32;
                if 0x20 <= code && code <= 0x7E && c != '\\' && c != '"' {
                    push_char(&mut s, c);
                } else {
                    let e = escape_debug(c);
                    s.append(e.as_str());
                }
                assert(pop_first_scalar(rest) =~= path@.subrange(i + n, path@.len() as int));
                assert(s@ + display_text(path@.subrange(i + n, path@.len() as int)) =~= before
                    + display_text(rest));
                i += n;
            },
            Utf8Step::Invalid(n) => {
                let mut j: usize = 0;
                while j < n
                    invariant
                        j <= n <= rest.len(),
                        n == invalid_sequence_len(rest),
                        i + n <= path.len(),
                        rest == path@.subrange(i as int, path@.len() as int),
                        s@ == before + hex_escapes(rest.subrange(0, j as int)),
                    decreases n - j,
                {
                    let b = path[i + j];
                    assert(rest[j as int] == b);
                    push_char(&mut s, '\\');
                    push_char(&mut s, 'x');
                    push_char(&mut s, hex_digit_char(b / 16));
                    push_char(&mut s, hex_digit_char(b % 16));
                    assert(rest.subrange(0, j + 1).drop_last() =~= rest.subrange(0, j as int));
                    assert(s@ =~= before + hex_escapes(rest.subrange(0, j + 1)));
                    j += 1;
                }
                assert(rest.subrange(n as int, rest.len() as int) =~= path@.subrange(
                    i + n,
                    path@.len() as int,
                ));
                assert(s@ + display_text(path@.subrange(i + n, path@.len() as int)) =~= before
                    + display_text(rest));
                i += n;
            },
        }
    }
    assert(path@.subrange(path@.len() as int, path@.len() as int) =~= Seq::<u8>::empty());
    assert(s@ =~= display_text(path@));
    s
}

/// Escaping bytes one after the other: the first byte's escape, then the rest.
pub proof fn lemma_hex_escapes_first(bs: Seq<u8>)
    requires
        bs.len() > 0,
    ensures
        hex_escapes(bs) == hex_escape(bs[0]) + hex_escapes(bs.subrange(1, bs.len() as int)),
    decreases bs.len(),
{
    if bs.len() == 1 {
        assert(bs.drop_last() =~= Seq::<u8>::empty());
        assert(bs.subrange(1, 1) =~= Seq::<u8>::empty());
        assert(hex_escapes(bs) =~= hex_escape(bs[0]));
    } else {
        let d = bs.drop_last();
        lemma_hex_escapes_first(d);
        assert(d.subrange(1, d.len() as int) =~= bs.subrange(1, bs.len() as int).drop_last());
        assert(bs.subrange(1, bs.len() as int).last() == bs.last());
        assert(hex_escapes(bs) =~= hex_escape(bs[0]) + hex_escapes(bs.subrange(1, bs.len() as int)));
    }
}

/// A continuation byte never begins a scalar: it is shown on its own in hex.
proof fn lemma_continuation_shows_alone(b: Seq<u8>)
    requires
        b.len() > 0,
        is_continuation_byte(b[0]),
    ensures
        !valid_first_scalar(b),
        display_text(b) == hex_escape(b[0]) + display_text(b.subrange(1, b.len() as int)),
{
    assert(invalid_sequence_len(b) == 1);
    assert(b.subrange(0, 1) =~= seq![b[0]]);
    lemma_hex_escapes_first(b.subrange(0, 1));
    assert(b.subrange(0, 1).subrange(1, 1) =~= Seq::<u8>::empty());
    assert(hex_escapes(Seq::<u8>::empty()) =~= Seq::<char>::empty());
}

/// An invalid sequence holds its lead byte and continuation bytes only.
pub proof fn law_invalid_sequence_is_lead_and_continuations(b: Seq<u8>)
    requires
        b.len() > 0,
        !valid_first_scalar(b),
    ensures
        1 <= invalid_sequence_len(b) <= 3,
        invalid_sequence_len(b) <= b.len(),
        forall|k: int| 1 <= k < invalid_sequence_len(b) ==> is_continuation_byte(#[trigger] b[k]),
{
}

/// A byte that does not begin a well-formed UTF-8 scalar is shown on its own
/// as `\xHH`, and the path goes on right after it: however the invalid bytes
/// are grouped, each is escaped by itself, and no valid character that
/// follows is swallowed.
pub proof fn law_invalid_byte_shows_alone(b: Seq<u8>)
    requires
        b.len() > 0,
        !valid_first_scalar(b),
    ensures
        display_text(b) == hex_escape(b[0]) + display_text(b.subrange(1, b.len() as int)),
{
    let n = invalid_sequence_len(b);
    let len = b.len() as int;
    law_invalid_sequence_is_lead_and_continuations(b);
    let head = b.subrange(0, n);
    lemma_hex_escapes_first(head);
    assert(display_text(b) == hex_escapes(head) + display_text(b.subrange(n, len)));
    if n == 1 {
        assert(head.subrange(1, 1) =~= Seq::<u8>::empty());
        assert(hex_escapes(Seq::<u8>::empty()) =~= Seq::<char>::empty());
        assert(hex_escapes(head) =~= hex_escape(b[0]));
    } else {
        let b1 = b.subrange(1, len);
        assert(b1[0] == b[1]);
        lemma_continuation_shows_alone(b1);
        assert(b1.subrange(1, b1.len() as int) =~= b.subrange(2, len));
        let t1 = head.subrange(1, n);
        lemma_hex_escapes_first(t1);
        assert(t1[0] == b[1]);
        if n == 2 {
            assert(t1.subrange(1, 1) =~= Seq::<u8>::empty());
            assert(hex_escapes(Seq::<u8>::empty()) =~= Seq::<char>::empty());
            assert(hex_escapes(t1) =~= hex_escape(b[1]));
        } else {
            let b2 = b.subrange(2, len);
            assert(b2[0] == b[2]);
            lemma_continuation_shows_alone(b2);
            assert(b2.subrange(1, b2.len() as int) =~= b.subrange(3, len));
            let t2 = t1.subrange(1, t1.len() as int);
            assert(t2 =~= seq![b[2]]);
            lemma_hex_escapes_first(t2);
            assert(t2.subrange(1, 1) =~= Seq::<u8>::empty());
            assert(hex_escapes(Seq::<u8>::empty()) =~= Seq::<char>::empty());
        }
    }
}

/// Whether every byte is printable ASCII other than the backslash and the
/// double quote.
pub open spec fn plain_bytes(b: Seq<u8>) -> bool {
    forall|i: int| 0 <= i < b.len() ==> 0x20 <= #[trigger] b[i] <= 0x7E && b[i] != 0x5C && b[i]
        != 0x22
}

/// A name of plain printable ASCII is shown exactly as it is: one character
/// per byte, each the byte itself.
pub proof fn law_plain_names_display_as_themselves(b: Seq<u8>)
    requires
        plain_bytes(b),
    ensures
        display_text(b).len() == b.len(),
        forall|i: int| 0 <= i < b.len() ==> #[trigger] display_text(b)[i] == (b[i] as char),
    decreases b.len(),
{
    if b.len() > 0 {
        let b0 = b[0];
        let rest = b.subrange(1, b.len() as int);
        assert(b0 & 0x7F == b0) by (bit_vector)
            requires
                b0 <= 0x7E,
        ;
        assert(valid_first_scalar(b));
        assert(pop_first_scalar(b) =~= rest);
        let c = decode_first_scalar(b) as char;
        assert(decode_first_scalar(b) == b0 as u32);
        assert(c == b0 as char);
        assert(is_plain_char(c));
        assert(plain_bytes(rest)) by {
            assert forall|i: int| 0 <= i < rest.len() implies 0x20 <= #[trigger] rest[i] <= 0x7E
                && rest[i] != 0x5C && rest[i] != 0x22 by {
                assert(rest[i] == b[i + 1]);
            }
        }
        law_plain_names_display_as_themselves(rest);
        assert forall|i: int| 0 <= i < b.len() implies #[trigger] display_text(b)[i] == (
        b[i] as char) by {
            if i > 0 {
                assert(display_text(b)[i] == display_text(rest)[i - 1]);
                assert(rest[i - 1] == b[i]);
            }
        }
    }
}

} // verus!
