//! The substitution cipher with alternatives: each key letter has a string
//! of characters that may stand for it, and the position in the text picks
//! one of them, which flattens the frequencies of the ciphertext.

use crate::text::{chars_of, text_of};
use crate::text_cipher::{CipherError, TextCipher};
use std::collections::HashMap;
use vstd::prelude::*;

verus! {

/// `text` encrypted under `key`: a character that has an entry in the key is
/// replaced by one of its alternatives, chosen by the character's position
/// in the whole text; any other character stays.
pub open spec fn substituted(key: Map<char, Seq<char>>, text: Seq<char>) -> Seq<char> {
    Seq::new(
        text.len(),
        |i: int|
            if key.contains_key(text[i]) {
                key[text[i]][i % (key[text[i]].len() as int)]
            } else {
                text[i]
            },
    )
}

/// The key letter `letter` has `c` among its alternatives.
pub open spec fn claims(key: Map<char, Seq<char>>, letter: char, c: char) -> bool {
    key.contains_key(letter) && key[letter].contains(c)
}

/// `letter` is the key letter that `c` is decrypted to: the greatest of the
/// letters that have `c` among their alternatives. This is the letter that
/// is left when the entries are written into a table in ascending order of
/// their letters and a later entry replaces an earlier one.
pub open spec fn is_origin(key: Map<char, Seq<char>>, c: char, letter: char) -> bool {
    &&& claims(key, letter, c)
    &&& forall|other: char| #[trigger] claims(key, other, c) ==> other <= letter
}

/// What `c` is decrypted to under `key`: its origin if it has one, else `c`.
pub open spec fn restored_char(key: Map<char, Seq<char>>, c: char) -> char {
    if exists|letter: char| is_origin(key, c, letter) {
        choose|letter: char| is_origin(key, c, letter)
    } else {
        c
    }
}

/// `text` decrypted under `key`, character by character.
pub open spec fn restored(key: Map<char, Seq<char>>, text: Seq<char>) -> Seq<char> {
    Seq::new(text.len(), |i: int| restored_char(key, text[i]))
}

/// A key has at most one origin for a character.
pub proof fn lemma_origin_unique(key: Map<char, Seq<char>>, c: char, a: char, b: char)
    requires
        is_origin(key, c, a),
        is_origin(key, c, b),
    ensures
        a == b,
{
}

/// No character stands among the alternatives of two key letters.
pub open spec fn unambiguous(key: Map<char, Seq<char>>) -> bool {
    forall|a: char, b: char, c: char|
        #[trigger] claims(key, a, c) && #[trigger] claims(key, b, c) ==> a == b
}

/// Decrypting gives back what was encrypted, if every key letter has an
/// alternative, no character is an alternative of two letters, and no
/// character of the text that lacks an entry is an alternative of any.
pub proof fn lemma_substitution_round_trip(key: Map<char, Seq<char>>, text: Seq<char>)
    requires
        forall|letter: char| key.contains_key(letter) ==> (#[trigger] key[letter]).len() > 0,
        unambiguous(key),
        forall|i: int, letter: char|
            0 <= i < text.len() && !key.contains_key(text[i]) ==> !#[trigger] claims(
                key,
                letter,
                #[trigger] text[i],
            ),
    ensures
        restored(key, substituted(key, text)) == text,
{
    let cipher = substituted(key, text);
    assert forall|i: int| 0 <= i < text.len() implies restored_char(key, cipher[i]) == text[i] by {
        let c = cipher[i];
        if key.contains_key(text[i]) {
            let letter = text[i];
            let alternatives = key[letter];
            let at = i % (alternatives.len() as int);
            assert(alternatives[at] == c);
            assert(claims(key, letter, c));
            assert(is_origin(key, c, letter));
            let found = choose|found: char| is_origin(key, c, found);
            lemma_origin_unique(key, c, letter, found);
        } else {
            assert(c == text[i]);
            assert forall|letter: char| !is_origin(key, c, letter) by {
                assert(!claims(key, letter, text[i]));
            }
        }
    }
    assert(restored(key, cipher) =~= text);
}

/// Encrypting and decrypting keep the length of a text. Encrypting leaves a
/// character that has no entry in the key where it is, and with it its
/// case; decrypting leaves a character that no key letter has among its
/// alternatives.
pub proof fn lemma_substitution_keeps_others(key: Map<char, Seq<char>>, text: Seq<char>)
    ensures
        substituted(key, text).len() == text.len(),
        restored(key, text).len() == text.len(),
        forall|i: int|
            0 <= i < text.len() && !key.contains_key(text[i]) ==> #[trigger] substituted(
                key,
                text,
            )[i] == text[i],
        forall|i: int|
            0 <= i < text.len() && (forall|letter: char| !claims(key, letter, text[i]))
                ==> #[trigger] restored(key, text)[i] == text[i],
{
}

/// Some entry has the letter `c`.
spec fn has_letter(entries: Seq<(char, Vec<char>)>, c: char) -> bool {
    exists|j: int| 0 <= j < entries.len() && entries[j].0 == c
}

/// The place of the entry for `c`.
spec fn slot(entries: Seq<(char, Vec<char>)>, c: char) -> int {
    choose|j: int| 0 <= j < entries.len() && entries[j].0 == c
}

/// No letter has two entries.
spec fn distinct_letters(entries: Seq<(char, Vec<char>)>) -> bool {
    forall|i: int, j: int| 0 <= i < j < entries.len() ==> entries[i].0 != entries[j].0
}

/// The mapping that a list of entries stands for.
spec fn alternatives_map(entries: Seq<(char, Vec<char>)>) -> Map<char, Seq<char>> {
    Map::new(|c: char| has_letter(entries, c), |c: char| entries[slot(entries, c)].1@)
}

/// With distinct letters, each entry is found at its own place.
proof fn lemma_slot(entries: Seq<(char, Vec<char>)>, j: int)
    requires
        distinct_letters(entries),
        0 <= j < entries.len(),
    ensures
        has_letter(entries, entries[j].0),
        slot(entries, entries[j].0) == j,
        alternatives_map(entries).contains_key(entries[j].0),
        alternatives_map(entries)[entries[j].0] == entries[j].1@,
{
}

/// Alternative `b` of entry `j` has been read when the entries before `e`
/// and the first `a` alternatives of entry `e` have been.
spec fn was_read(entries: Seq<(char, Vec<char>)>, e: int, a: int, j: int, b: int) -> bool {
    &&& 0 <= j < entries.len()
    &&& 0 <= b < entries[j].1@.len()
    &&& (j < e || (j == e && b < a))
}

/// Alternative `b` of entry `j`.
spec fn alternative(entries: Seq<(char, Vec<char>)>, j: int, b: int) -> char {
    entries[j].1@[b]
}

/// The table has a pair for `c`.
spec fn in_table(table: Seq<(char, char)>, c: char) -> bool {
    exists|p: int| 0 <= p < table.len() && (#[trigger] table[p]).0 == c
}

/// No character has two pairs in the table.
spec fn distinct_firsts(table: Seq<(char, char)>) -> bool {
    forall|p: int, q: int| 0 <= p < q < table.len() ==> table[p].0 != table[q].0
}

/// The pair names the greatest letter under which its character was read.
spec fn pair_right(pair: (char, char), entries: Seq<(char, Vec<char>)>, e: int, a: int) -> bool {
    &&& exists|j: int, b: int|
        was_read(entries, e, a, j, b) && entries[j].0 == pair.1 && #[trigger] alternative(
            entries,
            j,
            b,
        ) == pair.0
    &&& forall|j: int, b: int|
        was_read(entries, e, a, j, b) && #[trigger] alternative(entries, j, b) == pair.0
            ==> entries[j].0 <= pair.1
}

/// The table holds, for each character read so far and for no other, the
/// greatest letter under which it was read.
spec fn table_matches(
    table: Seq<(char, char)>,
    entries: Seq<(char, Vec<char>)>,
    e: int,
    a: int,
) -> bool {
    &&& distinct_firsts(table)
    &&& forall|p: int| 0 <= p < table.len() ==> pair_right(#[trigger] table[p], entries, e, a)
    &&& forall|j: int, b: int|
        was_read(entries, e, a, j, b) ==> in_table(table, #[trigger] alternative(entries, j, b))
}

/// A letter claims a character exactly if the character is one of the
/// alternatives of the letter's entry.
proof fn lemma_claims(entries: Seq<(char, Vec<char>)>, letter: char, c: char)
    requires
        distinct_letters(entries),
    ensures
        claims(alternatives_map(entries), letter, c) <==> exists|j: int, b: int|
            0 <= j < entries.len() && 0 <= b < entries[j].1@.len() && entries[j].0 == letter
                && #[trigger] alternative(entries, j, b) == c,
{
    let key = alternatives_map(entries);
    if claims(key, letter, c) {
        let j = slot(entries, letter);
        lemma_slot(entries, j);
        let b = choose|b: int| 0 <= b < key[letter].len() && key[letter][b] == c;
        assert(alternative(entries, j, b) == c);
    }
    if exists|j: int, b: int|
        0 <= j < entries.len() && 0 <= b < entries[j].1@.len() && entries[j].0 == letter
            && #[trigger] alternative(entries, j, b) == c {
        let (j, b) = choose|j: int, b: int|
            0 <= j < entries.len() && 0 <= b < entries[j].1@.len() && entries[j].0 == letter
                && #[trigger] alternative(entries, j, b) == c;
        lemma_slot(entries, j);
        assert(key[letter][b] == c);
    }
}

/// Once every entry has been read, the table decides what a character is
/// restored to.
proof fn lemma_table_restores(table: Seq<(char, char)>, entries: Seq<(char, Vec<char>)>, c: char)
    requires
        distinct_letters(entries),
        table_matches(table, entries, entries.len() as int, 0),
    ensures
        forall|p: int|
            0 <= p < table.len() && (#[trigger] table[p]).0 == c ==> restored_char(
                alternatives_map(entries),
                c,
            ) == table[p].1,
        !in_table(table, c) ==> restored_char(alternatives_map(entries), c) == c,
{
    let key = alternatives_map(entries);
    let n = entries.len() as int;
    assert forall|p: int| 0 <= p < table.len() && (#[trigger] table[p]).0 == c implies is_origin(
        key,
        c,
        table[p].1,
    ) by {
        let pair = table[p];
        assert(pair_right(pair, entries, n, 0));
        lemma_claims(entries, pair.1, c);
        assert forall|other: char| #[trigger] claims(key, other, c) implies other <= pair.1 by {
            lemma_claims(entries, other, c);
            let (j, b) = choose|j: int, b: int|
                0 <= j < entries.len() && 0 <= b < entries[j].1@.len() && entries[j].0 == other
                    && #[trigger] alternative(entries, j, b) == c;
            assert(was_read(entries, n, 0, j, b));
        }
    }
    if !in_table(table, c) {
        assert forall|letter: char| !is_origin(key, c, letter) by {
            if claims(key, letter, c) {
                lemma_claims(entries, letter, c);
                let (j, b) = choose|j: int, b: int|
                    0 <= j < entries.len() && 0 <= b < entries[j].1@.len() && entries[j].0
                        == letter && #[trigger] alternative(entries, j, b) == c;
                assert(was_read(entries, n, 0, j, b));
            }
        }
    }
}

/// The later of two letters in the alphabet's order.
spec fn greater(a: char, b: char) -> char {
    if a < b {
        b
    } else {
        a
    }
}

/// Writes into the table that `c` was read under `letter`: a character that
/// is new to the table gets a pair, and one that is there keeps the greater
/// of the two letters.
fn put_greatest(table: &mut Vec<(char, char)>, c: char, letter: char)
    requires
        distinct_firsts(old(table)@),
    ensures
        distinct_firsts(final(table)@),
        final(table)@.len() == old(table)@.len() + (if in_table(old(table)@, c) {
            0int
        } else {
            1int
        }),
        forall|p: int|
            0 <= p < old(table)@.len() ==> (#[trigger] final(table)@[p]).0 == old(table)@[p].0,
        forall|p: int|
            0 <= p < old(table)@.len() && old(table)@[p].0 != c ==> #[trigger] final(table)@[p]
                == old(table)@[p],
        forall|p: int|
            0 <= p < old(table)@.len() && old(table)@[p].0 == c
                ==> (#[trigger] final(table)@[p]).1 == greater(old(table)@[p].1, letter),
        !in_table(old(table)@, c) ==> final(table)@[old(table)@.len() as int] == (c, letter),
{
    let mut p: usize = 0;
    while p < table.len()
        invariant
            p <= table@.len(),
            table@ == old(table)@,
            distinct_firsts(table@),
            forall|q: int| 0 <= q < p ==> (#[trigger] table@[q]).0 != c,
        decreases table.len() - p,
    {
        if table[p].0 == c {
            if table[p].1 < letter {
                table.set(p, (c, letter));
            }
            return ;
        }
        p += 1;
    }
    table.push((c, letter));
}

/// Reading one more alternative, and writing it into the table, keeps the
/// table right.
proof fn lemma_put_keeps_match(
    before: Seq<(char, char)>,
    after: Seq<(char, char)>,
    entries: Seq<(char, Vec<char>)>,
    e: int,
    a: int,
)
    requires
        0 <= e < entries.len(),
        0 <= a < entries[e].1@.len(),
        table_matches(before, entries, e, a),
        distinct_firsts(after),
        after.len() == before.len() + (if in_table(before, alternative(entries, e, a)) {
            0int
        } else {
            1int
        }),
        forall|p: int| 0 <= p < before.len() ==> (#[trigger] after[p]).0 == before[p].0,
        forall|p: int|
            0 <= p < before.len() && before[p].0 != alternative(entries, e, a)
                ==> #[trigger] after[p] == before[p],
        forall|p: int|
            0 <= p < before.len() && before[p].0 == alternative(entries, e, a)
                ==> (#[trigger] after[p]).1 == greater(before[p].1, entries[e].0),
        !in_table(before, alternative(entries, e, a)) ==> after[before.len() as int] == (
            alternative(entries, e, a),
            entries[e].0,
        ),
    ensures
        table_matches(after, entries, e, a + 1),
{
    let c = alternative(entries, e, a);
    let letter = entries[e].0;
    assert(was_read(entries, e, a + 1, e, a));
    assert forall|p: int| 0 <= p < after.len() implies pair_right(
        #[trigger] after[p],
        entries,
        e,
        a + 1,
    ) by {
        let pair = after[p];
        if p < before.len() {
            let was = before[p];
            assert(pair_right(was, entries, e, a));
            let (j, b) = choose|j: int, b: int|
                was_read(entries, e, a, j, b) && entries[j].0 == was.1 && #[trigger] alternative(
                    entries,
                    j,
                    b,
                ) == was.0;
            assert(was_read(entries, e, a + 1, j, b));
            if was.0 != c {
                assert(pair == was);
                assert(alternative(entries, j, b) == pair.0 && entries[j].0 == pair.1);
            } else {
                assert(pair.0 == c);
                assert(pair.1 == greater(was.1, letter));
                if was.1 < letter {
                    assert(alternative(entries, e, a) == pair.0 && entries[e].0 == pair.1);
                } else {
                    assert(alternative(entries, j, b) == pair.0 && entries[j].0 == pair.1);
                }
            }
            assert forall|j2: int, b2: int|
                was_read(entries, e, a + 1, j2, b2) && #[trigger] alternative(entries, j2, b2)
                    == pair.0 implies entries[j2].0 <= pair.1 by {
                if was_read(entries, e, a, j2, b2) {
                    assert(entries[j2].0 <= was.1);
                } else {
                    assert(j2 == e && b2 == a);
                }
            }
        } else {
            assert(!in_table(before, c));
            assert(pair == (c, letter));
            assert(alternative(entries, e, a) == pair.0 && entries[e].0 == pair.1);
            assert forall|j2: int, b2: int|
                was_read(entries, e, a + 1, j2, b2) && #[trigger] alternative(entries, j2, b2)
                    == pair.0 implies entries[j2].0 <= pair.1 by {
                if was_read(entries, e, a, j2, b2) {
                    assert(in_table(before, alternative(entries, j2, b2)));
                } else {
                    assert(j2 == e && b2 == a);
                }
            }
        }
    }
    assert forall|j: int, b: int| was_read(entries, e, a + 1, j, b) implies in_table(
        after,
        #[trigger] alternative(entries, j, b),
    ) by {
        let x = alternative(entries, j, b);
        if was_read(entries, e, a, j, b) {
            assert(in_table(before, x));
            let p = choose|p: int| 0 <= p < before.len() && (#[trigger] before[p]).0 == x;
            assert(after[p].0 == x);
        } else {
            assert(j == e && b == a);
            if in_table(before, c) {
                let p = choose|p: int| 0 <= p < before.len() && (#[trigger] before[p]).0 == c;
                assert(after[p].0 == c);
            } else {
                assert(after[before.len() as int].0 == c);
            }
        }
    }
}

/// When all alternatives of an entry have been read, the next entry begins.
proof fn lemma_next_entry(table: Seq<(char, char)>, entries: Seq<(char, Vec<char>)>, e: int)
    requires
        0 <= e < entries.len(),
        table_matches(table, entries, e, entries[e].1@.len() as int),
    ensures
        table_matches(table, entries, e + 1, 0),
{
    let a = entries[e].1@.len() as int;
    assert forall|j: int, b: int|
        was_read(entries, e, a, j, b) == was_read(entries, e + 1, 0, j, b) by {}
    assert forall|p: int| 0 <= p < table.len() implies pair_right(
        #[trigger] table[p],
        entries,
        e + 1,
        0,
    ) by {
        let pair = table[p];
        assert(pair_right(pair, entries, e, a));
        let (j, b) = choose|j: int, b: int|
            was_read(entries, e, a, j, b) && entries[j].0 == pair.1 && #[trigger] alternative(
                entries,
                j,
                b,
            ) == pair.0;
        assert(was_read(entries, e + 1, 0, j, b));
    }
}

/// The letter that the table holds for `c`, if it holds one.
fn table_get(table: &Vec<(char, char)>, c: char) -> (found: Option<char>)
    ensures
        match found {
            Some(letter) => exists|p: int|
                0 <= p < table@.len() && #[trigger] table@[p] == (c, letter),
            None => !in_table(table@, c),
        },
{
    let mut p: usize = 0;
    while p < table.len()
        invariant
            p <= table@.len(),
            forall|q: int| 0 <= q < p ==> (#[trigger] table@[q]).0 != c,
        decreases table.len() - p,
    {
        if table[p].0 == c {
            return Some(table[p].1);
        }
        p += 1;
    }
    None
}

/// The entries of a key, each letter with its alternatives, in no
/// particular order.
///
/// Trusted: stands for `Vec::from_iter` on the map, which walks the map
/// once. It is taken to yield every pair of the map exactly once, so no
/// letter comes twice; nothing is said of the order.
#[verifier::external_body]
fn key_pairs(key: HashMap<char, String>) -> (pairs: Vec<(char, String)>)
    ensures
        forall|i: int|
            0 <= i < pairs@.len() ==> key@.contains_key(#[trigger] pairs@[i].0)
                && key@[pairs@[i].0]@ == pairs@[i].1@,
        forall|c: char|
            key@.contains_key(c) ==> exists|i: int| 0 <= i < pairs@.len() && pairs@[i].0 == c,
        forall|i: int, j: int| 0 <= i < j < pairs@.len() ==> pairs@[i].0 != pairs@[j].0,
{
    Vec::from_iter(key)
}

/// A substitution cipher with its key.
#[derive(Debug)]
pub struct SubstitutionCipher {
    entries: Vec<(char, Vec<char>)>,
}

impl View for SubstitutionCipher {
    type V = Map<char, Seq<char>>;

    /// The key: each key letter with its alternatives.
    closed spec fn view(&self) -> Map<char, Seq<char>> {
        alternatives_map(self.entries@)
    }
}

impl SubstitutionCipher {
    #[verifier::type_invariant]
    spec fn well_formed(&self) -> bool {
        &&& distinct_letters(self.entries@)
        &&& forall|j: int| 0 <= j < self.entries@.len() ==> (#[trigger] self.entries@[j]).1@.len() > 0
    }

    /// The place of the entry for `c`, if it has one.
    fn find(&self, c: char) -> (found: Option<usize>)
        ensures
            match found {
                Some(j) => j < self.entries@.len() && self.entries@[j as int].0 == c,
                None => !has_letter(self.entries@, c),
            },
    {
        let mut j: usize = 0;
        while j < self.entries.len()
            invariant
                j <= self.entries@.len(),
                forall|k: int| 0 <= k < j ==> self.entries@[k].0 != c,
            decreases self.entries.len() - j,
        {
            if self.entries[j].0 == c {
                return Some(j);
            }
            j += 1;
        }
        None
    }

    /// The table for decrypting: for each character that stands among the
    /// alternatives of the key, the greatest letter that has it.
    fn reverse_table(&self) -> (table: Vec<(char, char)>)
        ensures
            table_matches(table@, self.entries@, self.entries@.len() as int, 0),
    {
        let mut table: Vec<(char, char)> = Vec::new();
        let mut e: usize = 0;
        while e < self.entries.len()
            invariant
                e <= self.entries@.len(),
                table_matches(table@, self.entries@, e as int, 0),
            decreases self.entries.len() - e,
        {
            let letter: char = self.entries[e].0;
            let mut a: usize = 0;
            while a < self.entries[e].1.len()
                invariant
                    e < self.entries@.len(),
                    a <= self.entries@[e as int].1@.len(),
                    letter == self.entries@[e as int].0,
                    table_matches(table@, self.entries@, e as int, a as int),
                decreases self.entries@[e as int].1@.len() - a,
            {
                let ghost before = table@;
                put_greatest(&mut table, self.entries[e].1[a], letter);
                proof {
                    lemma_put_keeps_match(before, table@, self.entries@, e as int, a as int);
                }
                a += 1;
            }
            proof {
                lemma_next_entry(table@, self.entries@, e as int);
            }
            e += 1;
        }
        table
    }

    /// A cipher with the key `key`. The key is refused if one of its
    /// letters has no alternatives.
    #[verifier::loop_isolation(false)]
    pub fn new(key: HashMap<char, String>) -> (made: Result<SubstitutionCipher, CipherError>)
        ensures
            made is Ok <==> forall|c: char| key@.contains_key(c) ==> key@[c]@.len() > 0,
            made is Ok ==> made->Ok_0@.dom() == key@.dom(),
            made is Ok ==> forall|c: char|
                key@.contains_key(c) ==> #[trigger] made->Ok_0@[c] == key@[c]@,
            made is Err ==> made->Err_0 == CipherError::InvalidKey,
    {
        let ghost given = key@;
        let pairs: Vec<(char, String)> = key_pairs(key);
        let mut entries: Vec<(char, Vec<char>)> = Vec::new();
        let mut i: usize = 0;
        while i < pairs.len()
            invariant
                i <= pairs.len(),
                entries@.len() == i,
                forall|j: int|
                    0 <= j < i ==> (#[trigger] entries@[j]).0 == pairs@[j].0 && entries@[j].1@
                        == pairs@[j].1@ && entries@[j].1@.len() > 0,
            decreases pairs.len() - i,
        {
            let alternatives: Vec<char> = chars_of(pairs[i].1.as_str());
            if alternatives.len() == 0 {
                assert(given.contains_key(pairs@[i as int].0));
                return Err(CipherError::InvalidKey);
            }
            entries.push((pairs[i].0, alternatives));
            i += 1;
        }
        proof {
            assert(distinct_letters(entries@));
            let made = alternatives_map(entries@);
            assert forall|c: char| given.contains_key(c) implies made.contains_key(c) && made[c]
                == given[c]@ && given[c]@.len() > 0 by {
                let j = choose|j: int| 0 <= j < pairs@.len() && pairs@[j].0 == c;
                lemma_slot(entries@, j);
            }
            assert forall|c: char| made.dom().contains(c) <==> given.dom().contains(c) by {
                if made.contains_key(c) {
                    let j = slot(entries@, c);
                    assert(given.contains_key(pairs@[j].0));
                }
                if given.contains_key(c) {
                    let j = choose|j: int| 0 <= j < pairs@.len() && pairs@[j].0 == c;
                    lemma_slot(entries@, j);
                }
            }
            assert(made.dom() =~= given.dom());
        }
        Ok(SubstitutionCipher { entries })
    }
}

impl Clone for SubstitutionCipher {
    fn clone(&self) -> (copy: Self)
        ensures
            copy@ == self@,
    {
        proof {
            use_type_invariant(self);
        }
        let mut entries: Vec<(char, Vec<char>)> = Vec::new();
        let mut j: usize = 0;
        while j < self.entries.len()
            invariant
                j <= self.entries@.len(),
                entries@.len() == j,
                forall|k: int|
                    0 <= k < j ==> (#[trigger] entries@[k]).0 == self.entries@[k].0
                        && entries@[k].1@ == self.entries@[k].1@,
            decreases self.entries.len() - j,
        {
            let alternatives: Vec<char> = self.entries[j].1.clone();
            assert(alternatives@ =~= self.entries@[j as int].1@);
            entries.push((self.entries[j].0, alternatives));
            j += 1;
        }
        proof {
            assert(distinct_letters(entries@));
            assert forall|c: char| has_letter(entries@, c) == has_letter(self.entries@, c) by {
                if has_letter(entries@, c) {
                    let k = slot(entries@, c);
                    assert(self.entries@[k].0 == c);
                }
                if has_letter(self.entries@, c) {
                    let k = slot(self.entries@, c);
                    assert(entries@[k].0 == c);
                }
            }
            assert forall|c: char| has_letter(entries@, c) implies alternatives_map(entries@)[c]
                == alternatives_map(self.entries@)[c] by {
                let k = slot(entries@, c);
                lemma_slot(entries@, k);
                lemma_slot(self.entries@, k);
            }
            assert(alternatives_map(entries@) =~= alternatives_map(self.entries@));
        }
        SubstitutionCipher { entries }
    }
}

impl TextCipher for SubstitutionCipher {
    open spec fn encrypted(&self, text: Seq<char>) -> Seq<char> {
        substituted(self@, text)
    }

    open spec fn decrypted(&self, text: Seq<char>) -> Seq<char> {
        restored(self@, text)
    }

    fn encrypt(&self, text: &str) -> (out: String) {
        proof {
            use_type_invariant(self);
        }
        let chars: Vec<char> = chars_of(text);
        let mut changed: Vec<char> = Vec::new();
        let mut i: usize = 0;
        while i < chars.len()
            invariant
                i <= chars.len(),
                distinct_letters(self.entries@),
                forall|j: int|
                    0 <= j < self.entries@.len() ==> (#[trigger] self.entries@[j]).1@.len() > 0,
                changed@ == substituted(self@, chars@.subrange(0, i as int)),
            decreases chars.len() - i,
        {
            let c: char = chars[i];
            match self.find(c) {
                Some(j) => {
                    proof {
                        lemma_slot(self.entries@, j as int);
                    }
                    let n: usize = self.entries[j].1.len();
                    changed.push(self.entries[j].1[i % n]);
                },
                None => {
                    changed.push(c);
                },
            }
            i += 1;
            assert(changed@ =~= substituted(self@, chars@.subrange(0, i as int)));
        }
        assert(chars@.subrange(0, i as int) =~= chars@);
        text_of(&changed)
    }

    fn decrypt(&self, text: &str) -> (out: String) {
        proof {
            use_type_invariant(self);
        }
        let table: Vec<(char, char)> = self.reverse_table();
        let chars: Vec<char> = chars_of(text);
        let mut changed: Vec<char> = Vec::new();
        let mut i: usize = 0;
        while i < chars.len()
            invariant
                i <= chars.len(),
                distinct_letters(self.entries@),
                table_matches(table@, self.entries@, self.entries@.len() as int, 0),
                changed@ == restored(self@, chars@.subrange(0, i as int)),
            decreases chars.len() - i,
        {
            let c: char = chars[i];
            proof {
                lemma_table_restores(table@, self.entries@, c);
            }
            match table_get(&table, c) {
                Some(letter) => {
                    changed.push(letter);
                },
                None => {
                    changed.push(c);
                },
            }
            i += 1;
            assert(changed@ =~= restored(self@, chars@.subrange(0, i as int)));
        }
        assert(chars@.subrange(0, i as int) =~= chars@);
        text_of(&changed)
    }
}

} // verus!
