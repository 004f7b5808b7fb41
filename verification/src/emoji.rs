//! Splitting emoji strings into display sequences and naming them.

use vstd::prelude::*;

use crate::strbuf::{chars_of, push_char};

verus! {

/// Unicode's White_Space property (PropList.txt), which std's
/// `char::is_whitespace` reports.
pub open spec fn spec_is_white_space(c: char) -> bool {
    let u = c as u32;
    (0x9 <= u && u <= 0xD) || u == 0x20 || u == 0x85 || u == 0xA0 || u == 0x1680 || (0x2000 <= u
        && u <= 0x200A) || u == 0x2028 || u == 0x2029 || u == 0x202F || u == 0x205F || u == 0x3000
}

/// std's `char::is_whitespace`: true exactly for the characters with the Unicode
/// White_Space property, which is the fixed list in `spec_is_white_space`.
pub assume_specification[ char::is_whitespace ](c: char) -> (b: bool)
    ensures
        b == spec_is_white_space(c),
;

/// The zero-width joiner that glues emoji into one sequence.
pub open spec fn spec_zwj() -> char {
    '\u{200D}'
}

/// Regional indicator symbols (the letters that pair up into flags).
pub open spec fn spec_is_regional_indicator(c: char) -> bool {
    0x1F1E6 <= (c as u32) && (c as u32) <= 0x1F1FF
}

/// Characters that attach to the preceding emoji: variation selectors, the
/// keycap mark, skin-tone modifiers and tag characters.
pub open spec fn spec_is_sequence_modifier(c: char) -> bool {
    let u = c as u32;
    u == 0xFE0E || u == 0xFE0F || u == 0x20E3 || (0x1F3FB <= u && u <= 0x1F3FF) || (0xE0020 <= u
        && u <= 0xE007F)
}

pub fn is_regional_indicator(ch: char) -> (b: bool)
    ensures
        b == spec_is_regional_indicator(ch),
{
    let u = ch as u32;
    0x1F1E6 <= u && u <= 0x1F1FF
}

pub fn is_sequence_modifier(ch: char) -> (b: bool)
    ensures
        b == spec_is_sequence_modifier(ch),
{
    let u = ch as u32;
    u == 0xFE0E || u == 0xFE0F || u == 0x20E3 || (0x1F3FB <= u && u <= 0x1F3FF) || (0xE0020 <= u
        && u <= 0xE007F)
}

/// End (exclusive) of the run of modifiers and joined characters that starts
/// at `j`: modifiers are absorbed one at a time, and a joiner absorbs itself
/// together with the character after it.
pub open spec fn extension_end(cs: Seq<char>, j: int) -> int
    decreases cs.len() - j,
{
    if 0 <= j < cs.len() && spec_is_sequence_modifier(cs[j]) {
        extension_end(cs, j + 1)
    } else if 0 <= j && j + 1 < cs.len() && cs[j] == spec_zwj() {
        extension_end(cs, j + 2)
    } else {
        j
    }
}

/// End (exclusive) of the display sequence that starts at `i`: a pair of
/// regional indicators (a flag), or a lone one, or a base character followed
/// by its extension.
pub open spec fn sequence_end(cs: Seq<char>, i: int) -> int {
    if spec_is_regional_indicator(cs[i]) {
        if i + 1 < cs.len() && spec_is_regional_indicator(cs[i + 1]) {
            i + 2
        } else {
            i + 1
        }
    } else {
        extension_end(cs, i + 1)
    }
}

pub proof fn lemma_extension_end_bounds(cs: Seq<char>, j: int)
    requires
        0 <= j <= cs.len(),
    ensures
        j <= extension_end(cs, j) <= cs.len(),
    decreases cs.len() - j,
{
    if j < cs.len() && spec_is_sequence_modifier(cs[j]) {
        lemma_extension_end_bounds(cs, j + 1);
    } else if j + 1 < cs.len() && cs[j] == spec_zwj() {
        lemma_extension_end_bounds(cs, j + 2);
    }
}

pub proof fn lemma_sequence_end_bounds(cs: Seq<char>, i: int)
    requires
        0 <= i < cs.len(),
    ensures
        i < sequence_end(cs, i) <= cs.len(),
{
    if !spec_is_regional_indicator(cs[i]) {
        lemma_extension_end_bounds(cs, i + 1);
    }
}

/// The display sequences of `cs` from position `i` on: whitespace between
/// sequences is skipped, and each sequence runs to its `sequence_end`.
pub open spec fn sequences_from(cs: Seq<char>, i: int) -> Seq<Seq<char>>
    decreases cs.len() - i,
{
    if i < 0 || i >= cs.len() {
        Seq::empty()
    } else if spec_is_white_space(cs[i]) {
        sequences_from(cs, i + 1)
    } else {
        let e = sequence_end(cs, i);
        proof {
            lemma_sequence_end_bounds(cs, i);
        }
        seq![cs.subrange(i, e)] + sequences_from(cs, e)
    }
}

/// The display sequences of a whole string.
pub open spec fn spec_split_emojis(cs: Seq<char>) -> Seq<Seq<char>> {
    sequences_from(cs, 0)
}

/// Split an emoji string into display sequences.
pub fn split_emojis(emojis: &str) -> (out: Vec<String>)
    ensures
        out@.map_values(|t: String| t@) == spec_split_emojis(emojis@),
{
    let chars = chars_of(emojis);
    let ghost cs = chars@;
    let mut out: Vec<String> = Vec::new();
    let mut i: usize = 0;

    while i < chars.len()
        invariant
            cs == chars@,
            cs == emojis@,
            0 <= i <= cs.len(),
            spec_split_emojis(cs) == out@.map_values(|t: String| t@) + sequences_from(cs, i as int),
        decreases cs.len() - i,
    {
        let ch = chars[i];
        if ch.is_whitespace() {
            i += 1;
            continue;
        }
        let ghost start = i as int;
        let ghost end = sequence_end(cs, start);
        proof {
            lemma_sequence_end_bounds(cs, start);
        }

        let mut sequence = String::new();
        push_char(&mut sequence, ch);
        i += 1;

        if is_regional_indicator(ch) {
            if i < chars.len() && is_regional_indicator(chars[i]) {
                push_char(&mut sequence, chars[i]);
                i += 1;
            }
            assert(sequence@ == cs.subrange(start, end));
            proof {
                assert(out@.push(sequence).map_values(|t: String| t@) == out@.map_values(
                    |t: String| t@,
                ).push(sequence@));
            }
            out.push(sequence);
            continue;
        }

        loop
            invariant_except_break
                cs == chars@,
                0 <= start,
                start + 1 <= i <= cs.len(),
                end == extension_end(cs, i as int),
                sequence@ == cs.subrange(start, i as int),
            ensures
                i == end,
                sequence@ == cs.subrange(start, end),
            decreases cs.len() - i,
        {
            let ghost i0 = i;
            while i < chars.len() && is_sequence_modifier(chars[i])
                invariant
                    cs == chars@,
                    0 <= start,
                start + 1 <= i <= cs.len(),
                    end == extension_end(cs, i as int),
                    sequence@ == cs.subrange(start, i as int),
                    i0 <= i,
                decreases cs.len() - i,
            {
                push_char(&mut sequence, chars[i]);
                i += 1;
                assert(sequence@ == cs.subrange(start, i as int));
            }

            if i < chars.len() && i + 1 < chars.len() && chars[i] == '\u{200D}' {
                push_char(&mut sequence, chars[i]);
                push_char(&mut sequence, chars[i + 1]);
                i += 2;
                assert(sequence@ == cs.subrange(start, i as int));
                continue;
            }

            break;
        }
        assert(i == end);
        proof {
            assert(out@.push(sequence).map_values(|t: String| t@) == out@.map_values(
                |t: String| t@,
            ).push(sequence@));
        }
        out.push(sequence);
    }
    proof {
        assert(out@.map_values(|t: String| t@) + sequences_from(cs, i as int) == out@.map_values(
            |t: String| t@,
        ));
    }
    out
}

/// The lowercase hexadecimal digit for `d < 16`.
pub open spec fn hex_digit_char(d: nat) -> char {
    if d < 10 {
        (d + 48) as char
    } else {
        (d + 87) as char
    }
}

/// Lowercase hexadecimal without leading zeros, as `format!("{:x}", n)`.
pub open spec fn lower_hex(n: nat) -> Seq<char>
    decreases n,
{
    if n < 16 {
        seq![hex_digit_char(n)]
    } else {
        lower_hex(n / 16).push(hex_digit_char(n % 16))
    }
}

/// The codepoints of `cs` in lowercase hex, joined by '-'.
pub open spec fn spec_emoji_codepoint(cs: Seq<char>) -> Seq<char>
    decreases cs.len(),
{
    if cs.len() == 0 {
        Seq::empty()
    } else if cs.len() == 1 {
        lower_hex((cs[0] as u32) as nat)
    } else {
        spec_emoji_codepoint(cs.drop_last()) + seq!['-'] + lower_hex((cs.last() as u32) as nat)
    }
}

fn hex_digit(d: u32) -> (c: char)
    requires
        d < 16,
    ensures
        c == hex_digit_char(d as nat),
{
    if d < 10 {
        ((d as u8) + 48u8) as char
    } else {
        ((d as u8) + 87u8) as char
    }
}

fn push_lower_hex(s: &mut String, n: u32)
    ensures
        final(s)@ == old(s)@ + lower_hex(n as nat),
    decreases n,
{
    if n < 16 {
        push_char(s, hex_digit(n));
    } else {
        push_lower_hex(s, n / 16);
        push_char(s, hex_digit(n % 16));
    }
}

/// Get the bundled filename stem for an emoji sequence.
pub fn emoji_codepoint(emoji: &str) -> (name: String)
    ensures
        name@ == spec_emoji_codepoint(emoji@),
{
    let chars = chars_of(emoji);
    let mut name = String::new();
    let mut i: usize = 0;
    while i < chars.len()
        invariant
            chars@ == emoji@,
            0 <= i <= chars.len(),
            name@ == spec_emoji_codepoint(chars@.take(i as int)),
        decreases chars.len() - i,
    {
        if i > 0 {
            push_char(&mut name, '-');
        }
        let c = chars[i];
        push_lower_hex(&mut name, c as u32);
        proof {
            let t = chars@.take(i + 1);
            assert(t.drop_last() == chars@.take(i as int));
            assert(t.last() == c);
            if i == 0 {
                assert(t.len() == 1);
                assert(t[0] == c);
            }
        }
        i += 1;
    }
    assert(chars@.take(chars.len() as int) == chars@);
    name
}


proof fn lemma_sequences_from_rejoin(cs: Seq<char>, i: int)
    requires
        0 <= i <= cs.len(),
        forall|k: int| 0 <= k < cs.len() ==> !spec_is_white_space(#[trigger] cs[k]),
    ensures
        sequences_from(cs, i).flatten() == cs.subrange(i, cs.len() as int),
    decreases cs.len() - i,
{
    if i < cs.len() {
        let e = sequence_end(cs, i);
        lemma_sequence_end_bounds(cs, i);
        lemma_sequences_from_rejoin(cs, e);
        let r = sequences_from(cs, e);
        let all = seq![cs.subrange(i, e)] + r;
        assert(all.first() == cs.subrange(i, e));
        assert(all.drop_first() == r);
        assert(cs.subrange(i, e) + cs.subrange(e, cs.len() as int) == cs.subrange(i, cs.len() as int));
    }
}

/// Splitting drops nothing but the whitespace between sequences: for a text
/// without whitespace, the display sequences joined back together give the
/// text itself.
pub proof fn lemma_split_emojis_rejoins(cs: Seq<char>)
    requires
        forall|k: int| 0 <= k < cs.len() ==> !spec_is_white_space(#[trigger] cs[k]),
    ensures
        spec_split_emojis(cs).flatten() == cs,
{
    lemma_sequences_from_rejoin(cs, 0);
    assert(cs.subrange(0, cs.len() as int) == cs);
}

proof fn lemma_extension_end_in_piece(cs: Seq<char>, i: int, j: int)
    requires
        0 <= i <= j <= cs.len(),
    ensures
        extension_end(cs.subrange(i, extension_end(cs, j)), j - i) == extension_end(cs, j) - i,
    decreases cs.len() - j,
{
    lemma_extension_end_bounds(cs, j);
    let e = extension_end(cs, j);
    let t = cs.subrange(i, e);
    if j < cs.len() && spec_is_sequence_modifier(cs[j]) {
        lemma_extension_end_bounds(cs, j + 1);
        lemma_extension_end_in_piece(cs, i, j + 1);
        assert(t[j - i] == cs[j]);
    } else if j + 1 < cs.len() && cs[j] == spec_zwj() {
        lemma_extension_end_bounds(cs, j + 2);
        lemma_extension_end_in_piece(cs, i, j + 2);
        assert(t[j - i] == cs[j]);
    }
}

proof fn lemma_piece_splits_to_itself(cs: Seq<char>, i: int)
    requires
        0 <= i < cs.len(),
        !spec_is_white_space(cs[i]),
    ensures
        ({
            let p = cs.subrange(i, sequence_end(cs, i));
            &&& p.len() > 0
            &&& p[0] == cs[i]
            &&& spec_split_emojis(p) == seq![p]
        }),
{
    lemma_sequence_end_bounds(cs, i);
    let e = sequence_end(cs, i);
    let p = cs.subrange(i, e);
    assert(p[0] == cs[i]);
    if spec_is_regional_indicator(cs[i]) {
        if i + 1 < cs.len() && spec_is_regional_indicator(cs[i + 1]) {
            assert(p[1] == cs[i + 1]);
        }
        assert(sequence_end(p, 0) == p.len());
    } else {
        lemma_extension_end_in_piece(cs, i, i + 1);
        assert(sequence_end(p, 0) == p.len());
    }
    assert(p.subrange(0, p.len() as int) == p);
    assert(sequences_from(p, p.len() as int) == Seq::<Seq<char>>::empty());
    assert(sequences_from(p, 0) == seq![p] + Seq::<Seq<char>>::empty());
}

proof fn lemma_sequences_from_pieces(cs: Seq<char>, i: int, k: int)
    requires
        0 <= i <= cs.len(),
        0 <= k < sequences_from(cs, i).len(),
    ensures
        sequences_from(cs, i)[k].len() > 0,
        !spec_is_white_space(sequences_from(cs, i)[k][0]),
        spec_split_emojis(sequences_from(cs, i)[k]) == seq![sequences_from(cs, i)[k]],
    decreases cs.len() - i,
{
    if spec_is_white_space(cs[i]) {
        lemma_sequences_from_pieces(cs, i + 1, k);
    } else {
        let e = sequence_end(cs, i);
        lemma_sequence_end_bounds(cs, i);
        let r = sequences_from(cs, e);
        if k == 0 {
            lemma_piece_splits_to_itself(cs, i);
        } else {
            assert((seq![cs.subrange(i, e)] + r)[k] == r[k - 1]);
            lemma_sequences_from_pieces(cs, e, k - 1);
        }
    }
}

/// Each display sequence is whole: it is non-empty, starts with a character
/// that is not whitespace, and splitting it again gives it back as the one
/// and only sequence.
pub proof fn lemma_split_emojis_pieces(cs: Seq<char>, k: int)
    requires
        0 <= k < spec_split_emojis(cs).len(),
    ensures
        spec_split_emojis(cs)[k].len() > 0,
        !spec_is_white_space(spec_split_emojis(cs)[k][0]),
        spec_split_emojis(spec_split_emojis(cs)[k]) == seq![spec_split_emojis(cs)[k]],
{
    lemma_sequences_from_pieces(cs, 0, k);
}


proof fn lemma_extension_end_shift(x: Seq<char>, y: Seq<char>, k: int)
    requires
        0 <= k <= y.len(),
    ensures
        extension_end(x + y, x.len() + k) == x.len() + extension_end(y, k),
    decreases y.len() - k,
{
    let cs = x + y;
    if k < y.len() {
        assert(cs[x.len() + k] == y[k]);
    }
    if k + 1 < y.len() {
        assert(cs[x.len() + k + 1] == y[k + 1]);
    }
    if k < y.len() && spec_is_sequence_modifier(y[k]) {
        lemma_extension_end_shift(x, y, k + 1);
    } else if k + 1 < y.len() && y[k] == spec_zwj() {
        lemma_extension_end_shift(x, y, k + 2);
    }
}

proof fn lemma_sequences_from_shift(x: Seq<char>, y: Seq<char>, k: int)
    requires
        0 <= k <= y.len(),
    ensures
        sequences_from(x + y, x.len() + k) == sequences_from(y, k),
    decreases y.len() - k,
{
    let cs = x + y;
    if k < y.len() {
        assert(cs[x.len() + k] == y[k]);
        if !spec_is_white_space(y[k]) {
            lemma_sequence_end_bounds(y, k);
            if spec_is_regional_indicator(y[k]) {
                if k + 1 < y.len() {
                    assert(cs[x.len() + k + 1] == y[k + 1]);
                }
            } else {
                lemma_extension_end_shift(x, y, k + 1);
            }
            let e = sequence_end(y, k);
            assert(sequence_end(cs, x.len() + k) == x.len() + e);
            assert(cs.subrange(x.len() + k, x.len() + e) == y.subrange(k, e));
            lemma_sequences_from_shift(x, y, e);
        } else {
            lemma_sequences_from_shift(x, y, k + 1);
        }
    }
}

proof fn lemma_extension_end_prefix(a: Seq<char>, rest: Seq<char>, j: int)
    requires
        0 <= j <= a.len(),
        rest.len() > 0,
        rest[0] == ' ',
        a.len() == 0 || a.last() != spec_zwj(),
    ensures
        extension_end(a + rest, j) == extension_end(a, j),
    decreases a.len() - j,
{
    let cs = a + rest;
    if j < a.len() {
        assert(cs[j] == a[j]);
    } else {
        assert(cs[j] == ' ');
    }
    if j + 1 < a.len() {
        assert(cs[j + 1] == a[j + 1]);
    }
    if j < a.len() && spec_is_sequence_modifier(a[j]) {
        lemma_extension_end_prefix(a, rest, j + 1);
    } else if j + 1 < a.len() && a[j] == spec_zwj() {
        lemma_extension_end_prefix(a, rest, j + 2);
    } else if j + 1 == a.len() && a[j] == spec_zwj() {
        assert(a.last() == a[j]);
    }
}

proof fn lemma_sequences_from_prefix(a: Seq<char>, b: Seq<char>, i: int)
    requires
        0 <= i <= a.len(),
        a.len() == 0 || a.last() != spec_zwj(),
    ensures
        sequences_from(a + seq![' '] + b, i) == sequences_from(a, i) + sequences_from(b, 0),
    decreases a.len() - i,
{
    let rest = seq![' '] + b;
    let cs = a + seq![' '] + b;
    assert(cs == a + rest);
    if i == a.len() {
        assert(cs[i] == ' ');
        assert(spec_is_white_space(' '));
        let x = a + seq![' '];
        assert(cs == x + b);
        lemma_sequences_from_shift(x, b, 0);
        assert(sequences_from(a, i) == Seq::<Seq<char>>::empty());
        assert(sequences_from(a, i) + sequences_from(b, 0) == sequences_from(b, 0));
    } else {
        assert(cs[i] == a[i]);
        if spec_is_white_space(a[i]) {
            lemma_sequences_from_prefix(a, b, i + 1);
        } else {
            lemma_sequence_end_bounds(a, i);
            if spec_is_regional_indicator(a[i]) {
                if i + 1 < a.len() {
                    assert(cs[i + 1] == a[i + 1]);
                } else {
                    assert(cs[i + 1] == ' ');
                }
            } else {
                lemma_extension_end_prefix(a, rest, i + 1);
            }
            let e = sequence_end(a, i);
            assert(sequence_end(cs, i) == e);
            assert(cs.subrange(i, e) == a.subrange(i, e));
            lemma_sequences_from_prefix(a, b, e);
            assert(seq![a.subrange(i, e)] + sequences_from(a, e) + sequences_from(b, 0) == seq![a.subrange(i, e)]
                + (sequences_from(a, e) + sequences_from(b, 0)));
        }
    }
}

/// A space separates: two texts joined by a space split into the sequences of
/// the first followed by those of the second, unless the first ends with a
/// joiner (which would take the space into its sequence).
pub proof fn lemma_split_emojis_space_join(a: Seq<char>, b: Seq<char>)
    requires
        a.len() == 0 || a.last() != spec_zwj(),
    ensures
        spec_split_emojis(a + seq![' '] + b) == spec_split_emojis(a) + spec_split_emojis(b),
{
    lemma_sequences_from_prefix(a, b, 0);
}

/// A modifier stays with its base: a base character (not whitespace, not a
/// regional indicator) followed by a variation selector (U+FE0E, U+FE0F), the
/// keycap mark (U+20E3), any of the five skin tones (U+1F3FB ..= U+1F3FF) or a
/// tag character (U+E0020 ..= U+E007F) is one display sequence.
pub proof fn lemma_modifier_attaches_to_base(b: char, m: char)
    requires
        !spec_is_white_space(b),
        !(0x1F1E6 <= (b as u32) && (b as u32) <= 0x1F1FF),
        (m as u32) == 0xFE0E || (m as u32) == 0xFE0F || (m as u32) == 0x20E3 || (0x1F3FB <= (
        m as u32) && (m as u32) <= 0x1F3FF) || (0xE0020 <= (m as u32) && (m as u32) <= 0xE007F),
    ensures
        spec_split_emojis(seq![b, m]) == seq![seq![b, m]],
{
    let cs = seq![b, m];
    assert(cs[0] == b && cs[1] == m);
    assert(extension_end(cs, 2) == 2);
    assert(extension_end(cs, 1) == 2);
    assert(sequence_end(cs, 0) == 2);
    assert(cs.subrange(0, 2) == cs);
    assert(sequences_from(cs, 2) == Seq::<Seq<char>>::empty());
    assert(sequences_from(cs, 0) == seq![cs] + Seq::<Seq<char>>::empty());
}

/// A zero-width joiner (U+200D) glues the character after it to the sequence
/// before it: base, joiner, anything is one display sequence.
pub proof fn lemma_joiner_glues(b: char, c: char)
    requires
        !spec_is_white_space(b),
        !(0x1F1E6 <= (b as u32) && (b as u32) <= 0x1F1FF),
    ensures
        spec_split_emojis(seq![b, '\u{200D}', c]) == seq![seq![b, '\u{200D}', c]],
{
    let cs = seq![b, '\u{200D}', c];
    assert(cs[0] == b && cs[1] == '\u{200D}' && cs[2] == c);
    assert(!spec_is_sequence_modifier(cs[1]));
    assert(extension_end(cs, 3) == 3);
    assert(extension_end(cs, 1) == 3);
    assert(sequence_end(cs, 0) == 3);
    assert(cs.subrange(0, 3) == cs);
    assert(sequences_from(cs, 3) == Seq::<Seq<char>>::empty());
    assert(sequences_from(cs, 0) == seq![cs] + Seq::<Seq<char>>::empty());
}

/// Any other character starts a new sequence: a base followed by a character
/// that is neither whitespace, nor a modifier of the list above, nor the
/// joiner gives two display sequences of one character each.
pub proof fn lemma_other_character_starts_new_sequence(b: char, c: char)
    requires
        !spec_is_white_space(b),
        !(0x1F1E6 <= (b as u32) && (b as u32) <= 0x1F1FF),
        !spec_is_white_space(c),
        (c as u32) != 0x200D,
        !((c as u32) == 0xFE0E || (c as u32) == 0xFE0F || (c as u32) == 0x20E3 || (0x1F3FB <= (
        c as u32) && (c as u32) <= 0x1F3FF) || (0xE0020 <= (c as u32) && (c as u32) <= 0xE007F)),
    ensures
        spec_split_emojis(seq![b, c]) == seq![seq![b], seq![c]],
{
    let cs = seq![b, c];
    assert(cs[0] == b && cs[1] == c);
    assert(c != spec_zwj());
    assert(extension_end(cs, 1) == 1);
    assert(sequence_end(cs, 0) == 1);
    assert(extension_end(cs, 2) == 2);
    assert(sequence_end(cs, 1) == 2);
    assert(cs.subrange(0, 1) == seq![b]);
    assert(cs.subrange(1, 2) == seq![c]);
    assert(sequences_from(cs, 2) == Seq::<Seq<char>>::empty());
    assert(sequences_from(cs, 1) == seq![seq![c]] + Seq::<Seq<char>>::empty());
    assert(sequences_from(cs, 0) == seq![seq![b]] + seq![seq![c]]);
}

/// Regional indicators (U+1F1E6 ..= U+1F1FF) pair up into flags from the
/// left: two make one sequence, and of three the first two pair and the third
/// stands alone.
pub proof fn lemma_regional_indicators_pair(r1: char, r2: char, r3: char)
    requires
        0x1F1E6 <= (r1 as u32) && (r1 as u32) <= 0x1F1FF,
        0x1F1E6 <= (r2 as u32) && (r2 as u32) <= 0x1F1FF,
        0x1F1E6 <= (r3 as u32) && (r3 as u32) <= 0x1F1FF,
    ensures
        spec_split_emojis(seq![r1, r2]) == seq![seq![r1, r2]],
        spec_split_emojis(seq![r1, r2, r3]) == seq![seq![r1, r2], seq![r3]],
{
    let p = seq![r1, r2];
    assert(p[0] == r1 && p[1] == r2);
    assert(!spec_is_white_space(r1) && !spec_is_white_space(r3));
    assert(sequence_end(p, 0) == 2);
    assert(p.subrange(0, 2) == p);
    assert(sequences_from(p, 2) == Seq::<Seq<char>>::empty());
    assert(sequences_from(p, 0) == seq![p] + Seq::<Seq<char>>::empty());
    let t = seq![r1, r2, r3];
    assert(t[0] == r1 && t[1] == r2 && t[2] == r3);
    assert(sequence_end(t, 0) == 2);
    assert(sequence_end(t, 2) == 3);
    assert(t.subrange(0, 2) == p);
    assert(t.subrange(2, 3) == seq![r3]);
    assert(sequences_from(t, 3) == Seq::<Seq<char>>::empty());
    assert(sequences_from(t, 2) == seq![seq![r3]] + Seq::<Seq<char>>::empty());
    assert(sequences_from(t, 0) == seq![p] + seq![seq![r3]]);
}

} // verus!
