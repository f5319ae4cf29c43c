//! Character-level text helpers shared by the tokenizers and the command line.

use vstd::prelude::*;
use vstd::string::StringExecFns;
use vstd::string::StrSliceExecFns;

verus! {

/// `String::push` appends the given character to the end of the string.
pub assume_specification[ String::push ](s: &mut String, c: char)
    ensures
        final(s)@ == old(s)@.push(c),
;

/// The characters of a string, in order.
pub fn to_chars(s: &str) -> (r: Vec<char>)
    ensures
        r@ == s@,
{
    let mut out: Vec<char> = Vec::new();
    for c in it: s.chars()
        invariant
            it.seq() == s@,
            out@ == s@.take(it.index()),
    {
        out.push(c);
        assert(out@ =~= s@.take(it.index() + 1));
    }
    assert(s@.take(s@.len() as int) =~= s@);
    out
}

/// The string whose characters are `chars[from..to]`.
pub fn string_of(chars: &Vec<char>, from: usize, to: usize) -> (r: String)
    requires
        from <= to <= chars@.len(),
    ensures
        r@ == chars@.subrange(from as int, to as int),
{
    let mut out = String::new();
    let mut i: usize = from;
    while i < to
        invariant
            from <= i <= to <= chars@.len(),
            out@ == chars@.subrange(from as int, i as int),
        decreases to - i,
    {
        out.push(chars[i]);
        i += 1;
        assert(out@ =~= chars@.subrange(from as int, i as int));
    }
    out
}

/// A one-character string.
pub fn string_of_char(c: char) -> (r: String)
    ensures
        r@ == seq![c],
{
    let mut out = String::new();
    out.push(c);
    assert(out@ =~= seq![c]);
    out
}

/// The code point of `c`.
pub fn code_point(c: char) -> (r: u32)
    ensures
        r == c as int,
{
    c as u32
}

/// The two strings run together.
pub fn concat(a: &str, b: &str) -> (r: String)
    ensures
        r@ == a@ + b@,
{
    let mut out = a.to_owned();
    out.append(b);
    out
}

/// Whether two strings hold the same characters.
pub fn same_text(a: &str, b: &str) -> (r: bool)
    ensures
        r == (a@ == b@),
{
    a.to_owned() == b.to_owned()
}

/// The pieces of `s` between occurrences of `sep`; one more piece than there are separators.
pub open spec fn split_on(s: Seq<char>, sep: char) -> Seq<Seq<char>>
    decreases s.len(),
{
    if s.len() == 0 {
        seq![Seq::<char>::empty()]
    } else {
        let before = split_on(s.drop_last(), sep);
        if s.last() == sep {
            before.push(Seq::<char>::empty())
        } else {
            before.drop_last().push(before.last().push(s.last()))
        }
    }
}

/// The pieces run together with `sep` between neighbours.
pub open spec fn join_with(pieces: Seq<Seq<char>>, sep: Seq<char>) -> Seq<char>
    decreases pieces.len(),
{
    if pieces.len() == 0 {
        Seq::<char>::empty()
    } else if pieces.len() == 1 {
        pieces[0]
    } else {
        join_with(pieces.drop_last(), sep) + sep + pieces.last()
    }
}

/// The pieces run together.
pub open spec fn flatten(pieces: Seq<Seq<char>>) -> Seq<char>
    decreases pieces.len(),
{
    if pieces.len() == 0 {
        Seq::<char>::empty()
    } else {
        flatten(pieces.drop_last()) + pieces.last()
    }
}

/// Splitting never gives an empty list, no piece holds the separator, and putting the
/// separators back gives the text again.
pub proof fn law_split_join(s: Seq<char>, sep: char)
    ensures
        split_on(s, sep).len() >= 1,
        forall|i: int| 0 <= i < split_on(s, sep).len() ==> !(#[trigger] split_on(s, sep)[i]).contains(sep),
        join_with(split_on(s, sep), seq![sep]) == s,
    decreases s.len(),
{
    if s.len() > 0 {
        let c = s.last();
        let before = split_on(s.drop_last(), sep);
        law_split_join(s.drop_last(), sep);
        assert(s.drop_last().push(c) =~= s);
        let after = split_on(s, sep);
        if c == sep {
            assert(after.drop_last() =~= before);
            assert(join_with(after, seq![sep]) =~= join_with(before, seq![sep]).push(c));
        } else {
            assert(after.drop_last() =~= before.drop_last());
            if before.len() == 1 {
                assert(join_with(after, seq![sep]) =~= before[0].push(c));
            } else {
                assert(join_with(after, seq![sep]) =~= join_with(before, seq![sep]).push(c));
            }
            assert forall|i: int| 0 <= i < after.len() implies !(#[trigger] after[i]).contains(sep) by {
                if i < before.len() - 1 {
                    assert(after[i] == before[i]);
                } else {
                    let old_piece = before[before.len() - 1];
                    if after[i].contains(sep) {
                        let k = choose|k: int| 0 <= k < after[i].len() && after[i][k] == sep;
                        assert(k < old_piece.len());
                        assert(old_piece[k] == sep);
                        assert(old_piece.contains(sep));
                    }
                }
            }
        }
    } else {
        assert(!Seq::<char>::empty().contains(sep));
    }
}

/// The views of a list of strings.
pub open spec fn views(v: Seq<String>) -> Seq<Seq<char>> {
    v.map_values(|s: String| s@)
}

/// Cuts `s` at every `sep`, keeping empty pieces.
pub fn split_at_char(s: &str, sep: char) -> (r: Vec<String>)
    ensures
        views(r@) == split_on(s@, sep),
{
    let mut done: Vec<String> = Vec::new();
    let mut piece = String::new();
    assert(s@.take(0).len() == 0);
    assert(views(done@).push(piece@) =~= split_on(s@.take(0), sep));
    for c in it: s.chars()
        invariant
            it.seq() == s@,
            views(done@).push(piece@) == split_on(s@.take(it.index()), sep),
    {
        let ghost before = views(done@).push(piece@);
        let ghost taken = s@.take(it.index() + 1);
        assert(taken.drop_last() =~= s@.take(it.index()));
        assert(taken.last() == c);
        assert(before.drop_last() =~= views(done@));
        if c == sep {
            let ghost old_done = done@;
            done.push(piece);
            piece = String::new();
            assert(views(done@) =~= before);
        } else {
            piece.push(c);
            assert(views(done@).push(piece@) =~= before.drop_last().push(before.last().push(c)));
        }
    }
    assert(s@.take(s@.len() as int) =~= s@);
    let ghost before = views(done@).push(piece@);
    done.push(piece);
    assert(views(done@) =~= before);
    done
}

/// Runs the strings together with `sep` between neighbours.
pub fn join(pieces: &Vec<String>, sep: &str) -> (r: String)
    ensures
        r@ == join_with(views(pieces@), sep@),
{
    let mut out = String::new();
    let mut i: usize = 0;
    while i < pieces.len()
        invariant
            i <= pieces@.len(),
            out@ == join_with(views(pieces@).take(i as int), sep@),
        decreases pieces@.len() - i,
    {
        let ghost taken = views(pieces@).take(i + 1);
        assert(taken.drop_last() =~= views(pieces@).take(i as int));
        if i > 0 {
            out.append(sep);
        }
        out.append(pieces[i].as_str());
        i += 1;
        assert(out@ =~= join_with(taken, sep@));
    }
    assert(views(pieces@).take(i as int) =~= views(pieces@));
    out
}

/// Runs the strings together.
pub fn concat_all(pieces: &Vec<String>) -> (r: String)
    ensures
        r@ == flatten(views(pieces@)),
{
    let mut out = String::new();
    let mut i: usize = 0;
    while i < pieces.len()
        invariant
            i <= pieces@.len(),
            out@ == flatten(views(pieces@).take(i as int)),
        decreases pieces@.len() - i,
    {
        assert(views(pieces@).take(i + 1).drop_last() =~= views(pieces@).take(i as int));
        out.append(pieces[i].as_str());
        i += 1;
    }
    assert(views(pieces@).take(i as int) =~= views(pieces@));
    out
}

/// Whether `part` occurs in `s` starting at `at`.
pub open spec fn occurs_at(s: Seq<char>, part: Seq<char>, at: int) -> bool {
    0 <= at && at + part.len() <= s.len() && s.subrange(at, at + part.len()) == part
}

/// Whether `part` occurs somewhere in `s`.
pub open spec fn has_part(s: Seq<char>, part: Seq<char>) -> bool {
    exists|at: int| occurs_at(s, part, at)
}

/// Whether `s` begins with `part`.
pub open spec fn begins_with(s: Seq<char>, part: Seq<char>) -> bool {
    occurs_at(s, part, 0)
}

/// Whether `s` ends with `part`.
pub open spec fn finishes_with(s: Seq<char>, part: Seq<char>) -> bool {
    occurs_at(s, part, s.len() - part.len())
}

/// Compares `part` with the characters of `s` from position `at` on.
pub fn matches_at(s: &Vec<char>, part: &Vec<char>, at: usize) -> (r: bool)
    ensures
        r == occurs_at(s@, part@, at as int),
{
    let total: usize = s.len();
    if at > total || part.len() > total - at {
        return false;
    }
    let mut i: usize = 0;
    while i < part.len()
        invariant
            i <= part@.len(),
            total == s@.len(),
            at + part@.len() <= total,
            forall|k: int| 0 <= k < i ==> s@[at + k] == part@[k],
        decreases part@.len() - i,
    {
        if s[at + i] != part[i] {
            assert(s@.subrange(at as int, at + part@.len())[i as int] != part@[i as int]);
            return false;
        }
        i += 1;
    }
    assert(s@.subrange(at as int, at + part@.len()) =~= part@);
    true
}

/// Whether `part` occurs somewhere in `s`.
pub fn contains_part(s: &str, part: &str) -> (r: bool)
    ensures
        r == has_part(s@, part@),
{
    let hay = to_chars(s);
    let needle = to_chars(part);
    let mut at: usize = 0;
    while at <= hay.len()
        invariant
            at <= hay@.len() + 1,
            hay@ == s@,
            needle@ == part@,
            forall|k: int| 0 <= k < at ==> !occurs_at(s@, part@, k),
        decreases hay@.len() + 1 - at,
    {
        if matches_at(&hay, &needle, at) {
            assert(occurs_at(s@, part@, at as int));
            return true;
        }
        if at == hay.len() {
            return false;
        }
        at += 1;
    }
    false
}

/// Whether `s` begins with `part`.
pub fn starts_with(s: &str, part: &str) -> (r: bool)
    ensures
        r == begins_with(s@, part@),
{
    let hay = to_chars(s);
    let needle = to_chars(part);
    matches_at(&hay, &needle, 0)
}

/// Whether `s` ends with `part`.
pub fn ends_with(s: &str, part: &str) -> (r: bool)
    ensures
        r == finishes_with(s@, part@),
{
    let hay = to_chars(s);
    let needle = to_chars(part);
    if needle.len() > hay.len() {
        return false;
    }
    matches_at(&hay, &needle, hay.len() - needle.len())
}

/// A line without the carriage return that may close it.
pub open spec fn without_cr(line: Seq<char>) -> Seq<char> {
    if line.len() > 0 && line.last() == '\r' {
        line.drop_last()
    } else {
        line
    }
}

/// The lines of a text. A line feed ends a line and takes a carriage return before it along;
/// the last line needs no line feed.
pub open spec fn lines_of(s: Seq<char>) -> Seq<Seq<char>> {
    let pieces = split_on(s, '\n');
    let ended = pieces.drop_last().map_values(|line: Seq<char>| without_cr(line));
    if pieces.last().len() == 0 {
        ended
    } else {
        ended.push(pieces.last())
    }
}

/// The lines of `s`, without their line endings.
pub fn lines(s: &str) -> (r: Vec<String>)
    ensures
        views(r@) == lines_of(s@),
{
    let pieces = split_at_char(s, '\n');
    proof {
        law_split_join(s@, '\n');
    }
    let ghost parts = split_on(s@, '\n');
    assert(pieces@.len() == parts.len());
    let mut out: Vec<String> = Vec::new();
    let last: usize = pieces.len() - 1;
    let mut i: usize = 0;
    while i < last
        invariant
            i <= last,
            last == pieces@.len() - 1,
            views(pieces@) == parts,
            views(out@) == parts.take(i as int).map_values(|line: Seq<char>| without_cr(line)),
        decreases last - i,
    {
        assert(parts[i as int] == pieces@[i as int]@);
        let line = to_chars(pieces[i].as_str());
        let end: usize = if line.len() > 0 && line[line.len() - 1] == '\r' {
            line.len() - 1
        } else {
            line.len()
        };
        let kept = string_of(&line, 0, end);
        assert(kept@ =~= without_cr(parts[i as int]));
        let ghost before = views(out@);
        out.push(kept);
        i += 1;
        assert(views(out@) =~= before.push(kept@));
        assert(parts.take(i as int) =~= parts.take(i - 1).push(parts[i - 1]));
        assert(views(out@) =~= parts.take(i as int).map_values(|line: Seq<char>| without_cr(line)));
    }
    assert(parts.take(last as int) =~= parts.drop_last());
    assert(parts.last() == pieces@[last as int]@);
    if !pieces[last].as_str().is_empty() {
        let ghost ended = views(out@);
        out.push(pieces[last].clone());
        assert(views(out@) =~= ended.push(parts.last()));
    }
    out
}

/// A decimal digit.
pub open spec fn digit(d: nat) -> char {
    (48 + d) as char
}

/// The decimal numeral of `n`, without leading zeros.
pub open spec fn decimal(n: nat) -> Seq<char>
    decreases n,
{
    if n < 10 {
        seq![digit(n)]
    } else {
        decimal(n / 10).push(digit(n % 10))
    }
}

/// Writes `n` in decimal.
pub fn decimal_string(n: usize) -> (r: String)
    ensures
        r@ == decimal(n as nat),
    decreases n,
{
    let d: u8 = (n % 10) as u8;
    let c: char = (48u8 + d) as char;
    if n < 10 {
        string_of_char(c)
    } else {
        let mut out = decimal_string(n / 10);
        out.push(c);
        out
    }
}

/// `count` copies of `c`.
pub open spec fn repeated(c: char, count: int) -> Seq<char> {
    Seq::new(
        if count > 0 {
            count as nat
        } else {
            0
        },
        |i: int| c,
    )
}

/// The decimal numeral of `n`, filled up with zeros on the left to at least `width` characters.
pub open spec fn padded(n: nat, width: nat) -> Seq<char> {
    repeated('0', width - decimal(n).len()) + decimal(n)
}

/// Writes `n` in decimal with at least `width` characters, filling up with zeros on the left.
pub fn padded_string(n: usize, width: usize) -> (r: String)
    ensures
        r@ == padded(n as nat, width as nat),
{
    let digits = decimal_string(n);
    let shown = to_chars(digits.as_str());
    let mut out = String::new();
    let mut used: usize = shown.len();
    let mut zeros: usize = 0;
    assert(out@ =~= repeated('0', 0));
    while used < width
        invariant
            used == shown@.len() + zeros,
            shown@ == decimal(n as nat),
            used <= width || zeros == 0,
            out@ == repeated('0', zeros as int),
        decreases width - used,
    {
        out.push('0');
        used += 1;
        zeros += 1;
        assert(out@ =~= repeated('0', zeros as int));
    }
    assert(out@ =~= repeated('0', width - decimal(n as nat).len()));
    out.append(digits.as_str());
    out
}

/// Whether `c` is one of the ten decimal digits.
pub open spec fn is_digit(c: char) -> bool {
    '0' <= c && c <= '9'
}

/// The number that a run of decimal digits stands for.
pub open spec fn digits_value(s: Seq<char>) -> nat
    decreases s.len(),
{
    if s.len() == 0 {
        0
    } else {
        digits_value(s.drop_last()) * 10 + (s.last() as nat - 48) as nat
    }
}

/// Whether `s` is a non-empty run of decimal digits.
pub open spec fn all_digits(s: Seq<char>) -> bool {
    s.len() > 0 && forall|i: int| 0 <= i < s.len() ==> is_digit(#[trigger] s[i])
}

/// The digits of a numeral that may start with a plus sign.
pub open spec fn numeral_digits(s: Seq<char>) -> Seq<char> {
    if s.len() > 0 && s[0] == '+' {
        s.skip(1)
    } else {
        s
    }
}

/// The unsigned machine number that `s` spells, if it spells one.
pub open spec fn usize_of(s: Seq<char>) -> Option<usize> {
    let digits = numeral_digits(s);
    if all_digits(digits) && digits_value(digits) <= usize::MAX {
        Some(digits_value(digits) as usize)
    } else {
        None
    }
}

proof fn lemma_digits_value_grows(s: Seq<char>, i: int)
    requires
        0 <= i <= s.len(),
    ensures
        digits_value(s.take(i)) <= digits_value(s),
    decreases s.len() - i,
{
    if i == s.len() {
        assert(s.take(i) =~= s);
    } else {
        lemma_digits_value_grows(s, i + 1);
        assert(s.take(i + 1).drop_last() =~= s.take(i));
        assert(digits_value(s.take(i)) <= digits_value(s.take(i)) * 10);
    }
}

/// Reads an unsigned number: decimal digits, a plus sign allowed in front.
pub fn parse_usize(s: &str) -> (r: Option<usize>)
    ensures
        r == usize_of(s@),
{
    let chars = to_chars(s);
    let start: usize = if chars.len() > 0 && chars[0] == '+' {
        1
    } else {
        0
    };
    let ghost digits = numeral_digits(s@);
    assert(digits =~= chars@.skip(start as int));
    if start == chars.len() {
        return None;
    }
    let mut value: usize = 0;
    let mut i: usize = start;
    assert(digits.take(0).len() == 0);
    while i < chars.len()
        invariant
            start <= i <= chars@.len(),
            digits == chars@.skip(start as int),
            digits == numeral_digits(s@),
            value == digits_value(digits.take(i - start)),
            forall|k: int| 0 <= k < i - start ==> is_digit(#[trigger] digits[k]),
        decreases chars@.len() - i,
    {
        let c = chars[i];
        assert(digits[i - start] == c);
        if !('0' <= c && c <= '9') {
            assert(!is_digit(digits[i - start]));
            return None;
        }
        let d: usize = (c as u32 - 48) as usize;
        let ghost next = digits.take(i - start + 1);
        assert(next.drop_last() =~= digits.take(i - start));
        assert(digits_value(next) == value * 10 + d);
        if value > (usize::MAX - d) / 10 {
            proof {
                lemma_digits_value_grows(digits, i - start + 1);
            }
            return None;
        }
        value = value * 10 + d;
        i += 1;
    }
    assert(digits.take(i - start) =~= digits);
    Some(value)
}

/// Whether `c` has the Unicode `White_Space` property.
pub open spec fn white_space(c: char) -> bool {
    let n = c as u32;
    ||| 0x9 <= n <= 0xD
    ||| n == 0x20
    ||| n == 0x85
    ||| n == 0xA0
    ||| n == 0x1680
    ||| 0x2000 <= n <= 0x200A
    ||| n == 0x2028
    ||| n == 0x2029
    ||| n == 0x202F
    ||| n == 0x205F
    ||| n == 0x3000
}

/// Whether `c` has the Unicode `White_Space` property.
pub fn is_white_space(c: char) -> (r: bool)
    ensures
        r == white_space(c),
{
    let n: u32 = c as u32;
    (0x9 <= n && n <= 0xD) || n == 0x20 || n == 0x85 || n == 0xA0 || n == 0x1680 || (0x2000 <= n
        && n <= 0x200A) || n == 0x2028 || n == 0x2029 || n == 0x202F || n == 0x205F || n == 0x3000
}

/// The words read so far, and whether the last of them may still grow.
pub open spec fn words_and_open(s: Seq<char>) -> (Seq<Seq<char>>, bool)
    decreases s.len(),
{
    if s.len() == 0 {
        (Seq::empty(), false)
    } else {
        let (words, open) = words_and_open(s.drop_last());
        if white_space(s.last()) {
            (words, false)
        } else if open {
            (words.drop_last().push(words.last().push(s.last())), true)
        } else {
            (words.push(seq![s.last()]), true)
        }
    }
}

/// The maximal runs of characters that are not white space.
pub open spec fn words_of(s: Seq<char>) -> Seq<Seq<char>> {
    words_and_open(s).0
}

/// The maximal runs of characters of `s` that are not white space.
pub fn split_whitespace(s: &str) -> (r: Vec<String>)
    ensures
        views(r@) == words_of(s@),
{
    let mut done: Vec<String> = Vec::new();
    let mut word = String::new();
    let mut open: bool = false;
    assert(views(done@) =~= words_of(s@.take(0)));
    for c in it: s.chars()
        invariant
            it.seq() == s@,
            open == words_and_open(s@.take(it.index())).1,
            open ==> views(done@).push(word@) == words_of(s@.take(it.index())),
            !open ==> views(done@) == words_of(s@.take(it.index())) && word@.len() == 0,
    {
        let ghost taken = s@.take(it.index() + 1);
        assert(taken.drop_last() =~= s@.take(it.index()));
        assert(taken.last() == c);
        let ghost before = words_of(s@.take(it.index()));
        if is_white_space(c) {
            if open {
                done.push(word);
                word = String::new();
                open = false;
                assert(views(done@) =~= before);
            }
        } else {
            let ghost old_word = word@;
            word.push(c);
            if open {
                assert(views(done@).push(word@) =~= before.drop_last().push(before.last().push(c)));
            } else {
                assert(word@ =~= seq![c]);
            }
            open = true;
        }
    }
    assert(s@.take(s@.len() as int) =~= s@);
    if open {
        let ghost all = views(done@).push(word@);
        done.push(word);
        assert(views(done@) =~= all);
    }
    done
}

/// The text without the white space it begins with.
pub open spec fn without_leading_space(s: Seq<char>) -> Seq<char>
    decreases s.len(),
{
    if s.len() > 0 && white_space(s[0]) {
        without_leading_space(s.skip(1))
    } else {
        s
    }
}

/// Drops the white space that `s` begins with.
pub fn trim_start(s: &str) -> (r: String)
    ensures
        r@ == without_leading_space(s@),
{
    let chars = to_chars(s);
    let mut i: usize = 0;
    assert(s@.skip(0) =~= s@);
    while i < chars.len() && is_white_space(chars[i])
        invariant
            i <= chars@.len(),
            chars@ == s@,
            without_leading_space(s@.skip(i as int)) == without_leading_space(s@),
        decreases chars@.len() - i,
    {
        assert(s@.skip(i as int).skip(1) =~= s@.skip(i + 1));
        i += 1;
    }
    let kept = string_of(&chars, i, chars.len());
    assert(kept@ =~= s@.skip(i as int));
    kept
}

/// The text with every `from` changed to `to`.
pub open spec fn replaced(s: Seq<char>, from: char, to: char) -> Seq<char> {
    s.map_values(
        |c: char|
            if c == from {
                to
            } else {
                c
            },
    )
}

/// Changes every `from` in `s` to `to`.
pub fn replace_char(s: &str, from: char, to: char) -> (r: String)
    ensures
        r@ == replaced(s@, from, to),
{
    let mut out = String::new();
    for c in it: s.chars()
        invariant
            it.seq() == s@,
            out@ == replaced(s@.take(it.index()), from, to),
    {
        if c == from {
            out.push(to);
        } else {
            out.push(c);
        }
        assert(out@ =~= replaced(s@.take(it.index() + 1), from, to));
    }
    assert(s@.take(s@.len() as int) =~= s@);
    out
}

} // verus!
