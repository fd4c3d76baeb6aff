//! The environment's status line, `"name_a, name_b | valence=+0.12"`, read
//! back into the stimulus names it lists and the texts its valence may be
//! read from.  Names are trimmed of white space, empty names and names
//! starting with `valence=` are dropped; when the line holds no ` | `
//! separator and is itself a `valence=` entry, the valence is read from it.
use vstd::prelude::*;

verus! {

/// Characters with the Unicode `White_Space` property.
pub open spec fn white_space(c: char) -> bool {
    let u = c as u32;
    ||| 0x9 <= u <= 0xd
    ||| u == 0x20
    ||| u == 0x85
    ||| u == 0xa0
    ||| u == 0x1680
    ||| 0x2000 <= u <= 0x200a
    ||| u == 0x2028
    ||| u == 0x2029
    ||| u == 0x202f
    ||| u == 0x205f
    ||| u == 0x3000
}

/// `s` without its leading white space.
pub open spec fn trim_start(s: Seq<char>) -> Seq<char>
    decreases s.len(),
{
    if s.len() > 0 && white_space(s[0]) {
        trim_start(s.drop_first())
    } else {
        s
    }
}

/// `s` without its trailing white space.
pub open spec fn trim_end(s: Seq<char>) -> Seq<char>
    decreases s.len(),
{
    if s.len() > 0 && white_space(s.last()) {
        trim_end(s.drop_last())
    } else {
        s
    }
}

/// `s` without leading and trailing white space.
pub open spec fn trim(s: Seq<char>) -> Seq<char> {
    trim_end(trim_start(s))
}

/// `pat` occurs in `s` at index `i`.
pub open spec fn matches_at(s: Seq<char>, pat: Seq<char>, i: int) -> bool {
    0 <= i && i + pat.len() <= s.len() && s.subrange(i, i + pat.len()) == pat
}

/// The first index at or after `i` where `pat` occurs in `s`.
pub open spec fn find_from(s: Seq<char>, pat: Seq<char>, i: nat) -> Option<nat>
    decreases s.len() - i,
{
    if i >= s.len() || i + pat.len() > s.len() {
        None
    } else if matches_at(s, pat, i as int) {
        Some(i)
    } else {
        find_from(s, pat, i + 1)
    }
}

/// `s` begins with `pat`.
pub open spec fn starts_with(s: Seq<char>, pat: Seq<char>) -> bool {
    pat.len() <= s.len() && s.take(pat.len() as int) == pat
}

/// The pieces of `s` between occurrences of `sep` (one more piece than
/// there are separators; pieces may be empty).
pub open spec fn split_on(s: Seq<char>, sep: char) -> Seq<Seq<char>>
    decreases s.len(),
{
    if s.len() == 0 {
        seq![Seq::empty()]
    } else {
        let parts = split_on(s.drop_last(), sep);
        if s.last() == sep {
            parts.push(Seq::empty())
        } else {
            parts.update(parts.len() - 1, parts.last().push(s.last()))
        }
    }
}

/// A character that may belong to a number: an ASCII digit, `.`, `+` or `-`.
pub open spec fn numeric_char(c: char) -> bool {
    let u = c as u32;
    (0x30 <= u <= 0x39) || u == 0x2e || u == 0x2b || u == 0x2d
}

/// The longest prefix of `s` made of numeric characters.
pub open spec fn numeric_prefix(s: Seq<char>) -> Seq<char>
    decreases s.len(),
{
    if s.len() > 0 && numeric_char(s[0]) {
        seq![s[0]] + numeric_prefix(s.drop_first())
    } else {
        Seq::empty()
    }
}

/// The separator between the names and the valence.
pub open spec fn status_separator() -> Seq<char> {
    seq![' ', '|', ' ']
}

/// The key that introduces the valence.
pub open spec fn valence_key() -> Seq<char> {
    seq!['v', 'a', 'l', 'e', 'n', 'c', 'e', '=']
}

/// The part of a status line before the first separator (all of it when
/// there is none).
pub open spec fn names_part(s: Seq<char>) -> Seq<char> {
    match find_from(s, status_separator(), 0) {
        Some(p) => s.take(p as int),
        None => s,
    }
}

/// The trimmed pieces that are non-empty and do not start with the valence
/// key, in order.
pub open spec fn kept_names(pieces: Seq<Seq<char>>) -> Seq<Seq<char>>
    decreases pieces.len(),
{
    if pieces.len() == 0 {
        Seq::empty()
    } else {
        let rest = kept_names(pieces.drop_last());
        let t = trim(pieces.last());
        if t.len() > 0 && !starts_with(t, valence_key()) {
            rest.push(t)
        } else {
            rest
        }
    }
}

/// The stimulus names a status line lists.
pub open spec fn status_stimuli(s: Seq<char>) -> Seq<Seq<char>> {
    kept_names(split_on(trim(names_part(s)), ','))
}

/// The text the valence is read from: what follows the first separator, or
/// the whole (trimmed) line when it has no separator and is a valence entry.
pub open spec fn valence_source(s: Seq<char>) -> Option<Seq<char>> {
    match find_from(s, status_separator(), 0) {
        Some(p) => Some(s.skip(p as int + 3)),
        None => if starts_with(trim(s), valence_key()) {
            Some(trim(s))
        } else {
            None
        },
    }
}

/// The number text after the valence key in `seg`, if the key occurs.
pub open spec fn valence_after_key(seg: Seq<char>) -> Option<Seq<char>> {
    match find_from(seg, valence_key(), 0) {
        Some(q) => Some(numeric_prefix(seg.skip(q as int + 8))),
        None => None,
    }
}

/// For each segment, in order, the number text after its valence key.
pub open spec fn segment_candidates(segs: Seq<Seq<char>>) -> Seq<Seq<char>>
    decreases segs.len(),
{
    if segs.len() == 0 {
        Seq::empty()
    } else {
        let rest = segment_candidates(segs.drop_last());
        match valence_after_key(segs.last()) {
            Some(t) => rest.push(t),
            None => rest,
        }
    }
}

/// The texts a status line's valence may be read from, in the order they
/// are tried (the last one that parses as a number wins): one per
/// `|`-separated segment of the valence source holding the key, then the
/// one after the first key in the whole source.
pub open spec fn valence_texts(s: Seq<char>) -> Seq<Seq<char>> {
    match valence_source(s) {
        None => Seq::empty(),
        Some(rest) => segment_candidates(split_on(rest, '|')) + match valence_after_key(rest) {
            Some(t) => seq![t],
            None => Seq::empty(),
        },
    }
}

/// An ASCII digit `0` to `9`, a point or a sign, listed one by one.
pub open spec fn number_symbol(c: char) -> bool {
    ||| c == '0'
    ||| c == '1'
    ||| c == '2'
    ||| c == '3'
    ||| c == '4'
    ||| c == '5'
    ||| c == '6'
    ||| c == '7'
    ||| c == '8'
    ||| c == '9'
    ||| c == '.'
    ||| c == '+'
    ||| c == '-'
}

/// A number text runs to the first character that is not an ASCII digit, a
/// point or a sign: a text `t` made only of such characters is read whole,
/// at the end of the input and when any other character `c` follows it.
pub proof fn lemma_numeric_prefix_reads_number(t: Seq<char>, c: char, u: Seq<char>)
    requires
        forall|i: int| 0 <= i < t.len() ==> number_symbol(#[trigger] t[i]),
        !number_symbol(c),
    ensures
        numeric_prefix(t) == t,
        numeric_prefix(t + seq![c] + u) == t,
    decreases t.len(),
{
    let s = t + seq![c] + u;
    if t.len() == 0 {
        assert(s[0] == c);
        assert(!numeric_char(c));
        assert(numeric_prefix(s) == Seq::<char>::empty());
        assert(t =~= Seq::<char>::empty());
    } else {
        let d = t[0];
        assert(number_symbol(d));
        assert(numeric_char(d));
        lemma_numeric_prefix_reads_number(t.drop_first(), c, u);
        assert(s[0] == d);
        assert(s.drop_first() =~= t.drop_first() + seq![c] + u);
        assert(seq![d] + t.drop_first() =~= t);
    }
}

/// `find_from` gives the first match at or after `i`.
proof fn lemma_find_first(s: Seq<char>, pat: Seq<char>, i: nat, p: nat)
    requires
        i <= p,
        matches_at(s, pat, p as int),
        pat.len() > 0,
        forall|q: int| i <= q < p ==> !#[trigger] matches_at(s, pat, q),
    ensures
        find_from(s, pat, i) == Some(p),
    decreases p - i,
{
    if i < p {
        lemma_find_first(s, pat, i + 1, p);
    }
}

/// A text without `sep` is a single piece.
proof fn lemma_split_without_separator(s: Seq<char>, sep: char)
    requires
        forall|i: int| 0 <= i < s.len() ==> #[trigger] s[i] != sep,
    ensures
        split_on(s, sep) == seq![s],
    decreases s.len(),
{
    if s.len() > 0 {
        lemma_split_without_separator(s.drop_last(), sep);
        assert(s.drop_last().push(s.last()) =~= s);
    } else {
        assert(s =~= Seq::<char>::empty());
    }
}

/// The valence key followed by a number text gives that text, whole.
pub proof fn lemma_valence_after_key_reads_number(t: Seq<char>)
    requires
        forall|i: int| 0 <= i < t.len() ==> number_symbol(#[trigger] t[i]),
    ensures
        valence_after_key(seq!['v', 'a', 'l', 'e', 'n', 'c', 'e', '='] + t) == Some(t),
{
    let seg = seq!['v', 'a', 'l', 'e', 'n', 'c', 'e', '='] + t;
    assert(seg.subrange(0, 8) =~= valence_key());
    assert(find_from(seg, valence_key(), 0) == Some(0nat));
    assert(seg.skip(8) =~= t);
    lemma_numeric_prefix_reads_number(t, ' ', Seq::empty());
}

/// A status line splits at its first separator: when the names before
/// ` | ` hold no `|`, the names part is exactly those names and the valence
/// is read from everything after the separator.
pub proof fn lemma_status_line_splits(names: Seq<char>, rest: Seq<char>)
    requires
        forall|i: int| 0 <= i < names.len() ==> #[trigger] names[i] != '|',
    ensures
        names_part(names + seq![' ', '|', ' '] + rest) == names,
        valence_source(names + seq![' ', '|', ' '] + rest) == Some(rest),
{
    let line = names + seq![' ', '|', ' '] + rest;
    let p = names.len();
    assert(line.subrange(p as int, p as int + 3) =~= status_separator());
    assert forall|q: int| 0 <= q < p implies !#[trigger] matches_at(line, status_separator(), q) by {
        if matches_at(line, status_separator(), q) {
            assert(line.subrange(q, q + 3)[1] == '|');
            assert(line[q + 1] == '|');
            if q + 1 < p {
                assert(line[q + 1] == names[q + 1]);
            } else {
                assert(line[q + 1] == ' ');
            }
        }
    }
    lemma_find_first(line, status_separator(), 0, p);
    assert(line.skip(p as int + 3) =~= rest);
    assert(line.take(p as int) =~= names);
}

/// A line without any `|` has no separator: it lists its names whole, and
/// its valence is read from the trimmed line exactly when that starts with
/// `valence=`.
pub proof fn lemma_line_without_separator(line: Seq<char>)
    requires
        forall|i: int| 0 <= i < line.len() ==> #[trigger] line[i] != '|',
    ensures
        names_part(line) == line,
        valence_source(line) == if starts_with(
            trim(line),
            seq!['v', 'a', 'l', 'e', 'n', 'c', 'e', '='],
        ) {
            Some(trim(line))
        } else {
            None::<Seq<char>>
        },
{
    lemma_find_from_first(line, status_separator(), 0);
    if find_from(line, status_separator(), 0) is Some {
        let p = find_from(line, status_separator(), 0)->0;
        assert(line.subrange(p as int, p as int + 3)[1] == '|');
        assert(line[p as int + 1] == '|');
    }
    assert(valence_key() =~= seq!['v', 'a', 'l', 'e', 'n', 'c', 'e', '=']);
}

/// Reading a status line back: when the stimulus names hold no `|` and the
/// separator ` | ` is followed by `valence=` and a number text `t` made of
/// ASCII digits, points and signs up to the end of the line, the valence is
/// read from exactly `t`, once from the segment holding the key and once
/// from the whole text after the separator.
pub proof fn lemma_valence_texts_read_number(names: Seq<char>, t: Seq<char>)
    requires
        forall|i: int| 0 <= i < names.len() ==> #[trigger] names[i] != '|',
        forall|i: int| 0 <= i < t.len() ==> number_symbol(#[trigger] t[i]),
    ensures
        valence_texts(
            names + seq![' ', '|', ' '] + seq!['v', 'a', 'l', 'e', 'n', 'c', 'e', '='] + t,
        ) == seq![t, t],
{
    let key = seq!['v', 'a', 'l', 'e', 'n', 'c', 'e', '='];
    let rest = key + t;
    let line = names + seq![' ', '|', ' '] + rest;
    assert(line =~= names + seq![' ', '|', ' '] + key + t);
    lemma_status_line_splits(names, rest);
    assert(valence_source(line) == Some(rest));
    assert forall|i: int| 0 <= i < rest.len() implies #[trigger] rest[i] != '|' by {
        if i >= 8 {
            assert(rest[i] == t[i - 8]);
            assert(number_symbol(t[i - 8]));
        }
    }
    lemma_split_without_separator(rest, '|');
    lemma_valence_after_key_reads_number(t);
    let segs = seq![rest];
    assert(segs.drop_last() =~= Seq::<Seq<char>>::empty());
    assert(segment_candidates(segs.drop_last()) == Seq::<Seq<char>>::empty());
    assert(segs.last() == rest);
    assert(Seq::<Seq<char>>::empty().push(t) =~= seq![t]);
    assert(segment_candidates(segs) == seq![t]);
    assert(seq![t] + seq![t] =~= seq![t, t]);
}

/// The first match of a non-empty `pat` at or after `i`, if any:
/// `find_from` gives a match with none between `i` and it, and gives nothing
/// only when `pat` occurs nowhere at or after `i`.
pub proof fn lemma_find_from_first(s: Seq<char>, pat: Seq<char>, i: nat)
    requires
        pat.len() > 0,
    ensures
        match find_from(s, pat, i) {
            Some(p) => {
                &&& p >= i
                &&& matches_at(s, pat, p as int)
                &&& forall|q: int| i <= q < p ==> !#[trigger] matches_at(s, pat, q)
            },
            None => forall|q: int| i <= q ==> !#[trigger] matches_at(s, pat, q),
        },
    decreases s.len() - i,
{
    if i >= s.len() || i + pat.len() > s.len() {
        assert forall|q: int| i <= q implies !#[trigger] matches_at(s, pat, q) by {}
    } else if matches_at(s, pat, i as int) {
    } else {
        lemma_find_from_first(s, pat, i + 1);
    }
}

/// The pieces of a split put back together with the separator between them.
pub open spec fn joined(pieces: Seq<Seq<char>>, sep: char) -> Seq<char>
    decreases pieces.len(),
{
    if pieces.len() <= 1 {
        if pieces.len() == 1 {
            pieces[0]
        } else {
            Seq::empty()
        }
    } else {
        joined(pieces.drop_last(), sep) + seq![sep] + pieces.last()
    }
}

/// Splitting loses nothing and cuts at every separator: no piece holds the
/// separator, there is at least one piece, and joining the pieces with the
/// separator gives back the text.
pub proof fn lemma_split_on_rejoins(s: Seq<char>, sep: char)
    ensures
        split_on(s, sep).len() >= 1,
        forall|k: int, i: int|
            0 <= k < split_on(s, sep).len() && 0 <= i < split_on(s, sep)[k].len() ==> #[trigger] split_on(
                s,
                sep,
            )[k][i] != sep,
        joined(split_on(s, sep), sep) == s,
    decreases s.len(),
{
    if s.len() == 0 {
        assert(joined(split_on(s, sep), sep) == Seq::<char>::empty());
        assert(s =~= Seq::<char>::empty());
    } else {
        let t = s.drop_last();
        let c = s.last();
        lemma_split_on_rejoins(t, sep);
        let parts = split_on(t, sep);
        let all = split_on(s, sep);
        if c == sep {
            assert(all == parts.push(Seq::empty()));
            assert(all.drop_last() =~= parts);
            assert forall|k: int, i: int| 0 <= k < all.len() && 0 <= i < all[k].len() implies #[trigger] all[k][i]
                != sep by {
                assert(k < parts.len());
                assert(all[k] == parts[k]);
            }
            assert(joined(all, sep) == joined(parts, sep) + seq![sep] + Seq::<char>::empty());
            assert(t.push(c) =~= s);
            assert(joined(parts, sep) + seq![sep] + Seq::<char>::empty() =~= t.push(c));
        } else {
            let n = parts.len();
            let last = parts.last().push(c);
            assert(all == parts.update(n - 1, last));
            assert forall|k: int, i: int| 0 <= k < all.len() && 0 <= i < all[k].len() implies #[trigger] all[k][i]
                != sep by {
                if k < n - 1 {
                    assert(all[k] == parts[k]);
                } else {
                    assert(all[k] == last);
                    if i < parts.last().len() {
                        assert(last[i] == parts[n - 1][i]);
                    }
                }
            }
            if n == 1 {
                assert(joined(all, sep) == last);
                assert(joined(parts, sep) == parts[0]);
            } else {
                assert(all.drop_last() =~= parts.drop_last());
                assert(joined(all, sep) == joined(parts.drop_last(), sep) + seq![sep] + last);
                assert(joined(parts, sep) == joined(parts.drop_last(), sep) + seq![sep] + parts.last());
            }
            assert(t.push(c) =~= s);
            assert(joined(all, sep) =~= joined(parts, sep).push(c));
        }
    }
}

/// `trim_start` drops exactly the leading white space.
proof fn lemma_trim_start_drops(s: Seq<char>) -> (a: int)
    ensures
        0 <= a <= s.len(),
        trim_start(s) == s.skip(a),
        forall|i: int| 0 <= i < a ==> white_space(#[trigger] s[i]),
        trim_start(s).len() > 0 ==> !white_space(trim_start(s)[0]),
    decreases s.len(),
{
    if s.len() > 0 && white_space(s[0]) {
        let b = lemma_trim_start_drops(s.drop_first());
        assert(s.drop_first().skip(b) =~= s.skip(b + 1));
        assert forall|i: int| 0 <= i < b + 1 implies white_space(#[trigger] s[i]) by {
            if i > 0 {
                assert(s[i] == s.drop_first()[i - 1]);
            }
        }
        b + 1
    } else {
        assert(s.skip(0) =~= s);
        0
    }
}

/// `trim_end` drops exactly the trailing white space.
proof fn lemma_trim_end_drops(s: Seq<char>) -> (b: int)
    ensures
        0 <= b <= s.len(),
        trim_end(s) == s.take(b),
        forall|i: int| b <= i < s.len() ==> white_space(#[trigger] s[i]),
        trim_end(s).len() > 0 ==> !white_space(trim_end(s).last()),
    decreases s.len(),
{
    if s.len() > 0 && white_space(s.last()) {
        let b = lemma_trim_end_drops(s.drop_last());
        assert(s.drop_last().take(b) =~= s.take(b));
        assert forall|i: int| b <= i < s.len() implies white_space(#[trigger] s[i]) by {
            if i < s.len() - 1 {
                assert(s[i] == s.drop_last()[i]);
            }
        }
        b
    } else {
        assert(s.take(s.len() as int) =~= s);
        s.len() as int
    }
}

/// Trimming keeps the middle of `s` from its first to its last character
/// that is not white space: what it drops at either end is white space,
/// and what it keeps neither starts nor ends with white space.
pub proof fn lemma_trim_strips(s: Seq<char>)
    ensures
        exists|a: int|
            #![trigger s.subrange(a, a + trim(s).len())]
            0 <= a && a + trim(s).len() <= s.len() && trim(s) == s.subrange(a, a + trim(s).len())
                && (forall|i: int| 0 <= i < a ==> white_space(#[trigger] s[i])) && (forall|i: int|
                a + trim(s).len() <= i < s.len() ==> white_space(#[trigger] s[i])),
        trim(s).len() > 0 ==> !white_space(trim(s)[0]) && !white_space(trim(s).last()),
{
    let a = lemma_trim_start_drops(s);
    let t = trim_start(s);
    let b = lemma_trim_end_drops(t);
    let r = trim(s);
    assert(r == t.take(b));
    assert(r =~= s.subrange(a, a + b));
    assert forall|i: int| a + r.len() <= i < s.len() implies white_space(#[trigger] s[i]) by {
        assert(s[i] == t[i - a]);
    }
    if r.len() > 0 {
        assert(r[0] == t[0]);
    }
    assert(trim(s) == s.subrange(a, a + trim(s).len()));
}

/// The names kept from the pieces of a names list: each piece that is not
/// empty once trimmed and does not start with the valence key is kept,
/// trimmed; every kept name is such a trimmed piece; and they keep the
/// order of the pieces.
pub proof fn lemma_kept_names_members(pieces: Seq<Seq<char>>)
    ensures
        forall|k: int|
            0 <= k < pieces.len() && trim(#[trigger] pieces[k]).len() > 0 && !starts_with(
                trim(pieces[k]),
                seq!['v', 'a', 'l', 'e', 'n', 'c', 'e', '='],
            ) ==> kept_names(pieces).contains(trim(pieces[k])),
        forall|i: int|
            0 <= i < kept_names(pieces).len() ==> {
                let t = #[trigger] kept_names(pieces)[i];
                &&& t.len() > 0
                &&& !starts_with(t, seq!['v', 'a', 'l', 'e', 'n', 'c', 'e', '='])
                &&& exists|k: int| 0 <= k < pieces.len() && t == trim(#[trigger] pieces[k])
            },
        kept_names(pieces).len() <= pieces.len(),
    decreases pieces.len(),
{
    if pieces.len() > 0 {
        let front = pieces.drop_last();
        lemma_kept_names_members(front);
        let rest = kept_names(front);
        let all = kept_names(pieces);
        let t = trim(pieces.last());
        assert(valence_key() =~= seq!['v', 'a', 'l', 'e', 'n', 'c', 'e', '=']);
        assert forall|x: int| 0 <= x < rest.len() implies all[x] == rest[x] by {}
        assert forall|k: int|
            0 <= k < pieces.len() && trim(#[trigger] pieces[k]).len() > 0 && !starts_with(
                trim(pieces[k]),
                seq!['v', 'a', 'l', 'e', 'n', 'c', 'e', '='],
            ) implies all.contains(trim(pieces[k])) by {
            if k < pieces.len() - 1 {
                assert(front[k] == pieces[k]);
                assert(rest.contains(trim(front[k])));
                let x: int = choose|x: int| 0 <= x < rest.len() && rest[x] == trim(front[k]);
                assert(all[x] == rest[x]);
            } else {
                assert(all[all.len() - 1] == t);
            }
        }
        assert forall|i: int| 0 <= i < all.len() implies {
            let u = #[trigger] all[i];
            &&& u.len() > 0
            &&& !starts_with(u, seq!['v', 'a', 'l', 'e', 'n', 'c', 'e', '='])
            &&& exists|k: int| 0 <= k < pieces.len() && u == trim(#[trigger] pieces[k])
        } by {
            if i < rest.len() {
                assert(all[i] == rest[i]);
                let k: int = choose|k: int| 0 <= k < front.len() && rest[i] == trim(#[trigger] front[k]);
                assert(front[k] == pieces[k]);
            } else {
                assert(all[i] == t);
                assert(t == trim(pieces[pieces.len() - 1]));
            }
        }
    }
}

/// The character sequences of a list of character vectors.
pub open spec fn char_views(v: Seq<Vec<char>>) -> Seq<Seq<char>> {
    v.map_values(|x: Vec<char>| x@)
}

fn is_white_space(c: char) -> (b: bool)
    ensures
        b == white_space(c),
{
    let u: u32 = c as u32;
    (0x9 <= u && u <= 0xd) || u == 0x20 || u == 0x85 || u == 0xa0 || u == 0x1680 || (0x2000 <= u
        && u <= 0x200a) || u == 0x2028 || u == 0x2029 || u == 0x202f || u == 0x205f || u == 0x3000
}

fn is_numeric_char(c: char) -> (b: bool)
    ensures
        b == numeric_char(c),
{
    let u: u32 = c as u32;
    (0x30 <= u && u <= 0x39) || u == 0x2e || u == 0x2b || u == 0x2d
}

/// A copy of `s[from..to]`.
fn copy_range(s: &Vec<char>, from: usize, to: usize) -> (out: Vec<char>)
    requires
        from <= to <= s@.len(),
    ensures
        out@ == s@.subrange(from as int, to as int),
{
    let mut out: Vec<char> = Vec::new();
    let mut i: usize = from;
    while i < to
        invariant
            from <= i <= to,
            to <= s@.len(),
            out@ == s@.subrange(from as int, i as int),
        decreases to - i,
    {
        out.push(s[i]);
        assert(out@ =~= s@.subrange(from as int, i as int + 1));
        i = i + 1;
    }
    out
}

/// The first index where `pat` occurs in `s`.
fn find_chars(s: &Vec<char>, pat: &Vec<char>) -> (pos: Option<usize>)
    ensures
        match pos {
            Some(i) => find_from(s@, pat@, 0) == Some(i as nat),
            None => find_from(s@, pat@, 0) == None::<nat>,
        },
{
    let mut i: usize = 0;
    while i < s.len()
        invariant
            i <= s@.len(),
            find_from(s@, pat@, 0) == find_from(s@, pat@, i as nat),
        decreases s@.len() - i,
    {
        if pat.len() > s.len() - i {
            return None;
        }
        let mut j: usize = 0;
        let mut same: bool = true;
        while j < pat.len()
            invariant
                i + pat@.len() <= s@.len(),
                s@.len() == s.len(),
                j <= pat@.len(),
                same == forall|k: int| 0 <= k < j ==> s@[i + k] == pat@[k],
            decreases pat@.len() - j,
        {
            if s[i + j] != pat[j] {
                same = false;
            }
            j = j + 1;
        }
        if same {
            assert(s@.subrange(i as int, i + pat@.len()) =~= pat@);
            return Some(i);
        }
        proof {
            let k: int = choose|k: int| 0 <= k < pat@.len() && s@[i + k] != pat@[k];
            assert(s@.subrange(i as int, i + pat@.len())[k] != pat@[k]);
        }
        i = i + 1;
    }
    None
}

/// Whether `s` begins with `pat`.
fn starts_with_chars(s: &Vec<char>, pat: &Vec<char>) -> (b: bool)
    ensures
        b == starts_with(s@, pat@),
{
    if pat.len() > s.len() {
        return false;
    }
    let mut j: usize = 0;
    while j < pat.len()
        invariant
            pat@.len() <= s@.len(),
            j <= pat@.len(),
            forall|k: int| 0 <= k < j ==> s@[k] == pat@[k],
        decreases pat@.len() - j,
    {
        if s[j] != pat[j] {
            assert(s@.take(pat@.len() as int)[j as int] != pat@[j as int]);
            return false;
        }
        j = j + 1;
    }
    assert(s@.take(pat@.len() as int) =~= pat@);
    true
}

/// `s` without leading and trailing white space.
fn trim_chars(s: &Vec<char>) -> (out: Vec<char>)
    ensures
        out@ == trim(s@),
{
    let mut start: usize = 0;
    assert(s@.skip(0) =~= s@);
    while start < s.len() && is_white_space(s[start])
        invariant
            start <= s@.len(),
            trim_start(s@) == trim_start(s@.skip(start as int)),
        decreases s@.len() - start,
    {
        assert(s@.skip(start as int).drop_first() =~= s@.skip(start as int + 1));
        start = start + 1;
    }
    assert(trim_start(s@.skip(start as int)) == s@.skip(start as int));
    assert(s@.skip(start as int) =~= s@.subrange(start as int, s@.len() as int));
    let mut end: usize = s.len();
    while end > start && is_white_space(s[end - 1])
        invariant
            start <= end <= s@.len(),
            trim(s@) == trim_end(s@.subrange(start as int, end as int)),
        decreases end - start,
    {
        assert(s@.subrange(start as int, end as int).drop_last() =~= s@.subrange(
            start as int,
            end - 1,
        ));
        end = end - 1;
    }
    copy_range(s, start, end)
}

/// The pieces of `s` between occurrences of `sep`.
fn split_chars(s: &Vec<char>, sep: char) -> (parts: Vec<Vec<char>>)
    ensures
        char_views(parts@) == split_on(s@, sep),
{
    let mut parts: Vec<Vec<char>> = Vec::new();
    let mut current: Vec<char> = Vec::new();
    let mut i: usize = 0;
    assert(s@.take(0) =~= Seq::<char>::empty());
    assert(char_views(parts@).push(current@) =~= seq![Seq::<char>::empty()]);
    while i < s.len()
        invariant
            i <= s@.len(),
            char_views(parts@).push(current@) == split_on(s@.take(i as int), sep),
        decreases s@.len() - i,
    {
        let c: char = s[i];
        let ghost before: Seq<Seq<char>> = char_views(parts@);
        proof {
            let t = s@.take(i as int + 1);
            assert(t.drop_last() =~= s@.take(i as int));
            assert(t.last() == c);
        }
        if c == sep {
            let done: Vec<char> = current;
            parts.push(done);
            current = Vec::new();
            assert(char_views(parts@) =~= before.push(done@));
            assert(char_views(parts@).push(current@) =~= before.push(done@).push(Seq::empty()));
        } else {
            let ghost old_current: Seq<char> = current@;
            current.push(c);
            assert(char_views(parts@).push(current@) =~= before.push(old_current).update(
                before.len() as int,
                old_current.push(c),
            ));
        }
        i = i + 1;
    }
    assert(s@.take(s@.len() as int) =~= s@);
    parts.push(current);
    parts
}

/// The longest prefix of `s` made of numeric characters.
fn numeric_prefix_chars(s: &Vec<char>) -> (out: Vec<char>)
    ensures
        out@ == numeric_prefix(s@),
{
    let mut i: usize = 0;
    assert(s@.skip(0) =~= s@);
    while i < s.len() && is_numeric_char(s[i])
        invariant
            i <= s@.len(),
            numeric_prefix(s@) == s@.take(i as int) + numeric_prefix(s@.skip(i as int)),
        decreases s@.len() - i,
    {
        let ghost rest: Seq<char> = s@.skip(i as int);
        assert(rest.drop_first() =~= s@.skip(i as int + 1));
        assert(rest[0] == s@[i as int]);
        assert(s@.take(i as int) + numeric_prefix(rest) =~= s@.take(i as int + 1) + numeric_prefix(
            s@.skip(i as int + 1),
        ));
        i = i + 1;
    }
    assert(numeric_prefix(s@.skip(i as int)) =~= Seq::<char>::empty());
    assert(s@.take(i as int) + Seq::<char>::empty() =~= s@.take(i as int));
    copy_range(s, 0, i)
}

fn separator_chars() -> (sep: Vec<char>)
    ensures
        sep@ == status_separator(),
{
    let sep: Vec<char> = vec![' ', '|', ' '];
    assert(sep@ =~= status_separator());
    sep
}

fn valence_key_chars() -> (key: Vec<char>)
    ensures
        key@ == valence_key(),
{
    let key: Vec<char> = vec!['v', 'a', 'l', 'e', 'n', 'c', 'e', '='];
    assert(key@ =~= valence_key());
    key
}

/// The number text after the valence key in `seg`, if the key occurs.
fn valence_after_key_chars(seg: &Vec<char>) -> (text: Option<Vec<char>>)
    ensures
        match text {
            Some(t) => valence_after_key(seg@) == Some(t@),
            None => valence_after_key(seg@) == None::<Seq<char>>,
        },
{
    let key: Vec<char> = valence_key_chars();
    match find_chars(seg, &key) {
        Some(q) => {
            let len: usize = seg.len();
            proof {
                lemma_find_matches(seg@, valence_key(), 0);
                assert(matches_at(seg@, valence_key(), q as int));
                assert(valence_key().len() == 8);
                assert(q + 8 <= len);
            }
            let tail: Vec<char> = copy_range(seg, q + 8, len);
            assert(tail@ =~= seg@.skip(q + 8));
            Some(numeric_prefix_chars(&tail))
        },
        None => None,
    }
}

/// A position `find_from` returns is a match at or after the start.
proof fn lemma_find_matches(s: Seq<char>, pat: Seq<char>, i: nat)
    ensures
        match find_from(s, pat, i) {
            Some(p) => matches_at(s, pat, p as int) && p >= i,
            None => true,
        },
    decreases s.len() - i,
{
    if i >= s.len() || i + pat.len() > s.len() {
    } else if matches_at(s, pat, i as int) {
    } else {
        lemma_find_matches(s, pat, i + 1);
    }
}

/// Reads a status line back: the stimulus names it lists, and the texts its
/// valence may be read from, in the order they are tried (the last one that
/// parses as a number gives the valence; none, a valence of zero).
pub fn parse_status_line(line: &Vec<char>) -> (parsed: (Vec<Vec<char>>, Vec<Vec<char>>))
    ensures
        char_views(parsed.0@) == status_stimuli(line@),
        char_views(parsed.1@) == valence_texts(line@),
{
    let sep: Vec<char> = separator_chars();
    let key: Vec<char> = valence_key_chars();
    let found: Option<usize> = find_chars(line, &sep);
    let line_len: usize = line.len();
    proof {
        lemma_find_matches(line@, status_separator(), 0);
        if let Some(p) = found {
            assert(matches_at(line@, status_separator(), p as int));
            assert(status_separator().len() == 3);
            assert(p + 3 <= line_len);
        }
    }
    let head: Vec<char> = match found {
        Some(p) => copy_range(line, 0, p),
        None => copy_range(line, 0, line.len()),
    };
    assert(head@ =~= names_part(line@));
    let trimmed_head: Vec<char> = trim_chars(&head);
    let pieces: Vec<Vec<char>> = split_chars(&trimmed_head, ',');
    let ghost piece_views: Seq<Seq<char>> = char_views(pieces@);
    let mut names: Vec<Vec<char>> = Vec::new();
    let mut k: usize = 0;
    while k < pieces.len()
        invariant
            k <= pieces@.len(),
            piece_views == char_views(pieces@),
            key@ == valence_key(),
            char_views(names@) == kept_names(piece_views.take(k as int)),
        decreases pieces@.len() - k,
    {
        let t: Vec<char> = trim_chars(&pieces[k]);
        let keyed: bool = starts_with_chars(&t, &key);
        let ghost before: Seq<Seq<char>> = char_views(names@);
        proof {
            let tk = piece_views.take(k as int + 1);
            assert(tk.drop_last() =~= piece_views.take(k as int));
            assert(tk.last() == pieces@[k as int]@);
        }
        if t.len() > 0 && !keyed {
            let ghost tv: Seq<char> = t@;
            names.push(t);
            assert(char_views(names@) =~= before.push(tv));
        }
        k = k + 1;
    }
    assert(piece_views.take(pieces@.len() as int) =~= piece_views);
    let source: Option<Vec<char>> = match found {
        Some(p) => Some(copy_range(line, p + 3, line_len)),
        None => {
            let whole: Vec<char> = trim_chars(line);
            if starts_with_chars(&whole, &key) {
                Some(whole)
            } else {
                None
            }
        },
    };
    let mut texts: Vec<Vec<char>> = Vec::new();
    match source {
        Some(rest) => {
            proof {
                if let Some(p) = found {
                    assert(rest@ =~= line@.skip(p + 3));
                }
            }
            let segs: Vec<Vec<char>> = split_chars(&rest, '|');
            let ghost seg_views: Seq<Seq<char>> = char_views(segs@);
            let mut k: usize = 0;
            while k < segs.len()
                invariant
                    k <= segs@.len(),
                    seg_views == char_views(segs@),
                    char_views(texts@) == segment_candidates(seg_views.take(k as int)),
                decreases segs@.len() - k,
            {
                let ghost before: Seq<Seq<char>> = char_views(texts@);
                proof {
                    let tk = seg_views.take(k as int + 1);
                    assert(tk.drop_last() =~= seg_views.take(k as int));
                    assert(tk.last() == segs@[k as int]@);
                }
                match valence_after_key_chars(&segs[k]) {
                    Some(t) => {
                        let ghost tv: Seq<char> = t@;
                        texts.push(t);
                        assert(char_views(texts@) =~= before.push(tv));
                    },
                    None => {},
                }
                k = k + 1;
            }
            assert(seg_views.take(segs@.len() as int) =~= seg_views);
            let ghost so_far: Seq<Seq<char>> = char_views(texts@);
            match valence_after_key_chars(&rest) {
                Some(t) => {
                    let ghost tv: Seq<char> = t@;
                    texts.push(t);
                    assert(char_views(texts@) =~= so_far + seq![tv]);
                },
                None => {
                    assert(so_far + Seq::<Seq<char>>::empty() =~= so_far);
                },
            }
        },
        None => {
            assert(char_views(texts@) =~= Seq::<Seq<char>>::empty());
        },
    }
    (names, texts)
}

} // verus!
