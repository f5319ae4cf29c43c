//! What encoding and decoding with a byte-pair model give.

use vstd::prelude::*;
use vstd::utf8::encode_utf8;

use crate::bpe::merging::merge_pass;
use crate::bpe::model::{BpeModel, SPACE_MARK};
use crate::bpe::outside::regex_matches;
use crate::text::{begins_with, decimal, finishes_with, has_part, join_with, occurs_at, split_on};

verus! {

/// Looks up the keys one after the other; the first key without an entry is the error.
pub open spec fn lookup_all<K, V>(keys: Seq<K>, table: Map<K, V>) -> Result<Seq<V>, K>
    decreases keys.len(),
{
    if keys.len() == 0 {
        Ok(Seq::empty())
    } else {
        match lookup_all(keys.drop_last(), table) {
            Err(k) => Err(k),
            Ok(values) => if table.contains_key(keys.last()) {
                Ok(values.push(table[keys.last()]))
            } else {
                Err(keys.last())
            },
        }
    }
}

/// The characters of a text as tokens of one character.
pub open spec fn singles(text: Seq<char>) -> Seq<Seq<char>> {
    text.map_values(|c: char| seq![c])
}

/// The replacements that a table of merges gives.
pub open spec fn merge_of(merges: Map<(usize, usize), usize>) -> spec_fn(usize, usize) -> Option<usize> {
    |a: usize, b: usize|
        if merges.contains_key((a, b)) {
            Some(merges[(a, b)])
        } else {
            None
        }
}

/// Replaces the symbols `pair` by what they spell together.
pub open spec fn only_symbols(pair: (Seq<char>, Seq<char>)) -> spec_fn(Seq<char>, Seq<char>) -> Option<Seq<char>> {
    |a: Seq<char>, b: Seq<char>|
        if (a, b) == pair {
            Some(a + b)
        } else {
            None
        }
}

/// Whether the symbols at `i` and `i + 1` have a rank below the largest number.
pub open spec fn ranked_at(ranks: Map<(Seq<char>, Seq<char>), usize>, symbols: Seq<Seq<char>>, i: int) -> bool {
    &&& 0 <= i
    &&& i + 1 < symbols.len()
    &&& ranks.contains_key((symbols[i], symbols[i + 1]))
    &&& ranks[(symbols[i], symbols[i + 1])] < usize::MAX
}

/// Whether `pair` stands in `symbols` and no pair there has a lower rank.
pub open spec fn lowest_ranked(
    ranks: Map<(Seq<char>, Seq<char>), usize>,
    symbols: Seq<Seq<char>>,
    pair: (Seq<char>, Seq<char>),
) -> bool {
    &&& exists|i: int| #[trigger] ranked_at(ranks, symbols, i) && (symbols[i], symbols[i + 1]) == pair
    &&& forall|i: int| #[trigger]
        ranked_at(ranks, symbols, i) ==> ranks[pair] <= ranks[(symbols[i], symbols[i + 1])]
}

/// The symbols after the first `k` of the `chosen` pairs were merged.
pub open spec fn symbols_after(
    symbols: Seq<Seq<char>>,
    chosen: Seq<(Seq<char>, Seq<char>)>,
    k: nat,
) -> Seq<Seq<char>>
    decreases k,
{
    if k == 0 {
        symbols
    } else {
        merge_pass(symbols_after(symbols, chosen, (k - 1) as nat), only_symbols(chosen[k - 1]))
    }
}

/// Whether merging by rank may go from `symbols` to `after` with the pairs `chosen`: each is a
/// lowest-ranked pair of its time, and at the end no ranked pair is left.
pub open spec fn rank_merges_with(
    ranks: Map<(Seq<char>, Seq<char>), usize>,
    symbols: Seq<Seq<char>>,
    after: Seq<Seq<char>>,
    chosen: Seq<(Seq<char>, Seq<char>)>,
) -> bool {
    &&& forall|k: int|
        0 <= k < chosen.len() ==> lowest_ranked(ranks, symbols_after(symbols, chosen, k as nat), #[trigger] chosen[k])
    &&& after == symbols_after(symbols, chosen, chosen.len())
    &&& forall|i: int| !ranked_at(ranks, after, i)
}

/// Whether merging by rank may go from `symbols` to `after`.
pub open spec fn rank_merges(
    ranks: Map<(Seq<char>, Seq<char>), usize>,
    symbols: Seq<Seq<char>>,
    after: Seq<Seq<char>>,
) -> bool {
    exists|chosen: Seq<(Seq<char>, Seq<char>)>| rank_merges_with(ranks, symbols, after, chosen)
}

/// Says that a token has no id.
pub open spec fn unknown_token(token: Seq<char>) -> Seq<char> {
    "unknown token: '"@ + token + "'"@
}

/// Says that an id spells nothing.
pub open spec fn id_without_token(id: usize) -> Seq<char> {
    "id "@ + decimal(id as nat) + " not in vocab"@
}

/// Says that an id to decode spells nothing.
pub open spec fn unknown_id(id: usize) -> Seq<char> {
    "unknown id: "@ + decimal(id as nat)
}

/// The list after as many merging passes as change something.
pub open spec fn merged_through<T>(s: Seq<T>, f: spec_fn(T, T) -> Option<T>) -> Seq<T>
    decreases s.len(),
{
    if merge_pass(s, f).len() < s.len() {
        merged_through(merge_pass(s, f), f)
    } else {
        s
    }
}

/// The place of the first pair, among the first `n` pairs of neighbours, that has the lowest rank.
pub open spec fn lowest_place(
    ranks: Map<(Seq<char>, Seq<char>), usize>,
    symbols: Seq<Seq<char>>,
    n: nat,
) -> Option<int>
    decreases n,
{
    if n == 0 {
        None
    } else {
        let at = n - 1;
        match lowest_place(ranks, symbols, at as nat) {
            None => if ranked_at(ranks, symbols, at) {
                Some(at)
            } else {
                None
            },
            Some(best) => if ranked_at(ranks, symbols, at) && ranks[(symbols[at], symbols[at + 1])]
                < ranks[(symbols[best], symbols[best + 1])] {
                Some(at)
            } else {
                Some(best)
            },
        }
    }
}

/// The symbols after the pair with the lowest rank was merged, all over, until no ranked pair is
/// left. Of pairs with one rank the first comes first.
pub open spec fn rank_merged(ranks: Map<(Seq<char>, Seq<char>), usize>, symbols: Seq<Seq<char>>) -> Seq<Seq<char>>
    decreases symbols.len(),
{
    match lowest_place(ranks, symbols, symbols.len()) {
        None => symbols,
        Some(at) => {
            let next = merge_pass(symbols, only_symbols((symbols[at], symbols[at + 1])));
            if next.len() < symbols.len() {
                rank_merged(ranks, next)
            } else {
                symbols
            }
        },
    }
}

/// The ids of a token that has none of its own, or what is wrong with it. The ids of its characters
/// are merged as far as the learned merges go; where ranks are loaded, what the ids spell is merged
/// by rank instead and looked up again.
pub open spec fn tokenized(m: BpeModel, text: Seq<char>) -> Result<Seq<usize>, Seq<char>> {
    match lookup_all(singles(text), m.inverse) {
        Err(token) => Err(unknown_token(token)),
        Ok(ids) => if m.ranks == Map::<(Seq<char>, Seq<char>), usize>::empty() {
            Ok(merged_through(ids, merge_of(m.merges)))
        } else {
            match lookup_all(ids, m.vocab) {
                Err(id) => Err(id_without_token(id)),
                Ok(symbols) => match lookup_all(rank_merged(m.ranks, symbols), m.inverse) {
                    Err(token) => Err(unknown_token(token)),
                    Ok(found) => Ok(found),
                },
            }
        },
    }
}

/// The words of one line, a space mark in front of every word but the first of the text.
pub open spec fn line_tokens(line: Seq<char>, first_line: bool) -> Seq<Seq<char>> {
    let words = split_on(line, ' ');
    Seq::new(
        words.len(),
        |j: int|
            if j == 0 && first_line {
                words[j]
            } else {
                seq![SPACE_MARK] + words[j]
            },
    )
}

/// The tokens of the first `n` lines, a line feed between neighbours.
pub open spec fn tokens_of_lines(lines: Seq<Seq<char>>, n: nat) -> Seq<Seq<char>>
    decreases n,
{
    if n == 0 {
        Seq::empty()
    } else {
        let before = tokens_of_lines(lines, (n - 1) as nat);
        let parted = if n == 1 {
            before
        } else {
            before.push("\n"@)
        };
        parted + line_tokens(lines[n - 1], n == 1)
    }
}

/// The tokens that plain text is cut into.
pub open spec fn plain_tokens(text: Seq<char>) -> Seq<Seq<char>> {
    tokens_of_lines(split_on(text, '\n'), split_on(text, '\n').len())
}

/// The ids of a list of tokens, unless one of them cannot be tokenized.
pub open spec fn ids_of_tokens(m: BpeModel, tokens: Seq<Seq<char>>) -> Option<Seq<usize>>
    decreases tokens.len(),
{
    if tokens.len() == 0 {
        Some(Seq::empty())
    } else {
        match ids_of_tokens(m, tokens.drop_last()) {
            None => None,
            Some(ids) => if m.inverse.contains_key(tokens.last()) {
                Some(ids.push(m.inverse[tokens.last()]))
            } else {
                match tokenized(m, tokens.last()) {
                    Ok(more) => Some(ids + more),
                    Err(_) => None,
                }
            },
        }
    }
}

/// The ids of plain text, unless one of its tokens cannot be tokenized.
pub open spec fn plain_ids(m: BpeModel, text: Seq<char>) -> Option<Seq<usize>> {
    ids_of_tokens(m, plain_tokens(text))
}

/// Whether `c` has a meaning of its own in a regular expression.
pub open spec fn is_meta(c: char) -> bool {
    r"\.+*?()|[]{}^$"@.contains(c)
}

/// The regular expression that matches `s` and nothing else.
pub open spec fn escaped(s: Seq<char>) -> Seq<char>
    decreases s.len(),
{
    if s.len() == 0 {
        Seq::empty()
    } else if is_meta(s.last()) {
        escaped(s.drop_last()).push('\\').push(s.last())
    } else {
        escaped(s.drop_last()).push(s.last())
    }
}

/// The length of `s` in bytes.
pub open spec fn byte_len(s: Seq<char>) -> usize {
    encode_utf8(s).len() as usize
}

/// `list` with `token` put behind everything that is at least as long.
pub open spec fn placed(list: Seq<Seq<char>>, token: Seq<char>) -> Seq<Seq<char>>
    decreases list.len(),
{
    if list.len() > 0 && byte_len(list.last()) < byte_len(token) {
        placed(list.drop_last(), token).push(list.last())
    } else {
        list.push(token)
    }
}

/// The tokens from the longest to the shortest; equally long ones keep their order.
pub open spec fn longest_first(list: Seq<Seq<char>>) -> Seq<Seq<char>>
    decreases list.len(),
{
    if list.len() == 0 {
        list
    } else {
        placed(longest_first(list.drop_last()), list.last())
    }
}

/// The regular expression that matches each of the literals, earlier ones first.
pub open spec fn alternation(literals: Seq<Seq<char>>) -> Seq<char> {
    join_with(literals.map_values(|s: Seq<char>| escaped(s)), "|"@)
}

/// The regular expression for a list of special tokens.
pub open spec fn special_pattern(allowed: Seq<Seq<char>>) -> Seq<char> {
    alternation(longest_first(allowed))
}

/// Why encoding was refused.
pub enum EncodeFault {
    /// A special token of the text has no id.
    UnknownSpecial(Seq<char>),
    /// The text behind the last special token holds these special tokens that are not allowed.
    Disallowed(Set<Seq<char>>),
}

/// The ids up to the end of the first `n` matches, and where the last of them ends.
pub open spec fn ids_of_matches(m: BpeModel, text: Seq<char>, spans: Seq<(nat, nat)>, n: nat) -> Option<
    Result<(Seq<usize>, nat), EncodeFault>,
>
    decreases n,
{
    if n == 0 {
        Some(Ok((Seq::empty(), 0)))
    } else {
        match ids_of_matches(m, text, spans, (n - 1) as nat) {
            Some(Ok((ids, last))) => {
                let (start, end) = spans[n - 1];
                let prefix = text.subrange(last as int, start as int);
                let special = text.subrange(start as int, end as int);
                let known = if prefix.len() == 0 {
                    Some(Seq::<usize>::empty())
                } else {
                    plain_ids(m, prefix)
                };
                match known {
                    None => None,
                    Some(more) => if m.inverse.contains_key(special) {
                        Some(Ok(((ids + more).push(m.inverse[special]), end)))
                    } else {
                        Some(Err(EncodeFault::UnknownSpecial(special)))
                    },
                }
            },
            other => other,
        }
    }
}

/// The special tokens of the vocabulary that occur in `rest` without being allowed.
pub open spec fn disallowed(m: BpeModel, rest: Seq<char>, allowed: Seq<Seq<char>>) -> Set<Seq<char>> {
    Set::new(
        |t: Seq<char>|
            m.inverse.contains_key(t) && begins_with(t, "<|"@) && finishes_with(t, "|>"@) && has_part(rest, t)
                && !allowed.contains(t),
    )
}

/// What encoding gives when the special tokens stand at `spans`; nothing when a piece of plain text
/// cannot be tokenized.
pub open spec fn special_outcome(m: BpeModel, text: Seq<char>, allowed: Seq<Seq<char>>, spans: Seq<(nat, nat)>) -> Option<
    Result<Seq<usize>, EncodeFault>,
> {
    match ids_of_matches(m, text, spans, spans.len()) {
        None => None,
        Some(Err(fault)) => Some(Err(fault)),
        Some(Ok((ids, last))) => {
            let rest = text.subrange(last as int, text.len() as int);
            let found = disallowed(m, rest, allowed);
            if found != Set::<Seq<char>>::empty() {
                Some(Err(EncodeFault::Disallowed(found)))
            } else if rest.len() == 0 {
                Some(Ok(ids))
            } else {
                match plain_ids(m, rest) {
                    None => None,
                    Some(more) => Some(Ok(ids + more)),
                }
            }
        },
    }
}

/// What encoding gives. Nothing, when the special tokens make no regular expression or a piece of
/// plain text cannot be tokenized.
pub open spec fn encode_outcome(m: BpeModel, text: Seq<char>, allowed: Option<Seq<Seq<char>>>) -> Option<
    Result<Seq<usize>, EncodeFault>,
> {
    match allowed {
        None => match plain_ids(m, text) {
            None => None,
            Some(ids) => Some(Ok(ids)),
        },
        Some(list) => match regex_matches(special_pattern(list), text) {
            None => None,
            Some(spans) => special_outcome(m, text, list, spans),
        },
    }
}

/// What encoding gives when the special tokens are looked for from left to right, the longest first
/// at each place.
pub open spec fn literal_outcome(m: BpeModel, text: Seq<char>, allowed: Seq<Seq<char>>) -> Option<
    Result<Seq<usize>, EncodeFault>,
> {
    special_outcome(m, text, allowed, literal_matches(longest_first(allowed), text, 0))
}

/// What decoding appends for one token: a line feed becomes one space unless there is one already
/// or nothing was written, and a space mark in front becomes a space.
pub open spec fn decoded_step(so_far: Seq<char>, token: Seq<char>) -> Seq<char> {
    if token == "\n"@ {
        if so_far.len() > 0 && so_far.last() != ' ' {
            so_far.push(' ')
        } else {
            so_far
        }
    } else if token.len() > 0 && token[0] == SPACE_MARK {
        so_far + seq![' '] + token.skip(1)
    } else {
        so_far + token
    }
}

/// The text that a list of tokens stands for.
pub open spec fn decoded(tokens: Seq<Seq<char>>) -> Seq<char>
    decreases tokens.len(),
{
    if tokens.len() == 0 {
        Seq::empty()
    } else {
        decoded_step(decoded(tokens.drop_last()), tokens.last())
    }
}

/// Where the first of the literals from number `k` on that occur at the place `at` ends; nothing if
/// none of them occurs there.
pub open spec fn first_literal(literals: Seq<Seq<char>>, text: Seq<char>, at: nat, k: nat) -> Option<nat>
    decreases literals.len() - k,
{
    if k >= literals.len() {
        None
    } else if occurs_at(text, literals[k as int], at as int) {
        Some(at + literals[k as int].len())
    } else {
        first_literal(literals, text, at, k + 1)
    }
}

/// The next match of the literals from `at` on: leftmost, and at one place the earliest literal.
pub open spec fn next_literal(literals: Seq<Seq<char>>, text: Seq<char>, at: nat) -> Option<(nat, nat)>
    decreases text.len() - at,
{
    match first_literal(literals, text, at, 0) {
        Some(end) => Some((at, end)),
        None => if at >= text.len() {
            None
        } else {
            next_literal(literals, text, at + 1)
        },
    }
}

/// All matches of the literals from `at` on, each search starting where the last match ended.
pub open spec fn literal_matches(literals: Seq<Seq<char>>, text: Seq<char>, at: nat) -> Seq<(nat, nat)>
    decreases text.len() - at,
{
    match next_literal(literals, text, at) {
        Some((start, end)) => if at < end && end <= text.len() {
            seq![(start, end)] + literal_matches(literals, text, end)
        } else {
            Seq::empty()
        },
        None => Seq::empty(),
    }
}

} // verus!
