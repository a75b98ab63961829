//! The two fixed symbol tables of the codec: the Key Alphabet (small,
//! typable; carries the session key and makes up all cipher output) and the
//! Character Alphabet (larger; every representable plaintext character).
//! A symbol's position in its table is its key index or content index.

use vstd::prelude::*;

verus! {

/// Number of symbols in the Key Alphabet.
pub const KEY_LEN: usize = 43;

/// Number of symbols in the Character Alphabet.
pub const CHAR_LEN: usize = 77;

/// The symbol stored at position `i` of the Key Alphabet.
pub open spec fn key_symbol(i: int) -> char {
    if i == 0 {
        ' '
    } else if i == 1 {
        '1'
    } else if i == 2 {
        '2'
    } else if i == 3 {
        '3'
    } else if i == 4 {
        '4'
    } else if i == 5 {
        '5'
    } else if i == 6 {
        '6'
    } else if i == 7 {
        '7'
    } else if i == 8 {
        '8'
    } else if i == 9 {
        '9'
    } else if i == 10 {
        '0'
    } else if i == 11 {
        'q'
    } else if i == 12 {
        'w'
    } else if i == 13 {
        'e'
    } else if i == 14 {
        'r'
    } else if i == 15 {
        't'
    } else if i == 16 {
        'y'
    } else if i == 17 {
        'u'
    } else if i == 18 {
        'i'
    } else if i == 19 {
        'o'
    } else if i == 20 {
        'p'
    } else if i == 21 {
        'a'
    } else if i == 22 {
        's'
    } else if i == 23 {
        'd'
    } else if i == 24 {
        'f'
    } else if i == 25 {
        'g'
    } else if i == 26 {
        'h'
    } else if i == 27 {
        'j'
    } else if i == 28 {
        'k'
    } else if i == 29 {
        'l'
    } else if i == 30 {
        'z'
    } else if i == 31 {
        'x'
    } else if i == 32 {
        'c'
    } else if i == 33 {
        'v'
    } else if i == 34 {
        'b'
    } else if i == 35 {
        'n'
    } else if i == 36 {
        'm'
    } else if i == 37 {
        ','
    } else if i == 38 {
        '<'
    } else if i == 39 {
        '.'
    } else if i == 40 {
        '>'
    } else if i == 41 {
        '/'
    } else {
        '?'
    }
}

/// The symbol stored at position `i` of the Character Alphabet.
pub open spec fn content_symbol(i: int) -> char {
    if i == 0 {
        ' '
    } else if i == 1 {
        'Q'
    } else if i == 2 {
        'W'
    } else if i == 3 {
        'E'
    } else if i == 4 {
        'R'
    } else if i == 5 {
        'T'
    } else if i == 6 {
        'Y'
    } else if i == 7 {
        'U'
    } else if i == 8 {
        'I'
    } else if i == 9 {
        'O'
    } else if i == 10 {
        'P'
    } else if i == 11 {
        'A'
    } else if i == 12 {
        'S'
    } else if i == 13 {
        'D'
    } else if i == 14 {
        'F'
    } else if i == 15 {
        'G'
    } else if i == 16 {
        'H'
    } else if i == 17 {
        'J'
    } else if i == 18 {
        'K'
    } else if i == 19 {
        'L'
    } else if i == 20 {
        'Z'
    } else if i == 21 {
        'X'
    } else if i == 22 {
        'C'
    } else if i == 23 {
        'V'
    } else if i == 24 {
        'B'
    } else if i == 25 {
        'N'
    } else if i == 26 {
        'M'
    } else if i == 27 {
        'q'
    } else if i == 28 {
        'w'
    } else if i == 29 {
        'e'
    } else if i == 30 {
        'r'
    } else if i == 31 {
        't'
    } else if i == 32 {
        'y'
    } else if i == 33 {
        'u'
    } else if i == 34 {
        'i'
    } else if i == 35 {
        'o'
    } else if i == 36 {
        'p'
    } else if i == 37 {
        'a'
    } else if i == 38 {
        's'
    } else if i == 39 {
        'd'
    } else if i == 40 {
        'f'
    } else if i == 41 {
        'g'
    } else if i == 42 {
        'h'
    } else if i == 43 {
        'j'
    } else if i == 44 {
        'k'
    } else if i == 45 {
        'l'
    } else if i == 46 {
        '1'
    } else if i == 47 {
        '2'
    } else if i == 48 {
        '3'
    } else if i == 49 {
        '4'
    } else if i == 50 {
        '5'
    } else if i == 51 {
        '6'
    } else if i == 52 {
        '7'
    } else if i == 53 {
        '8'
    } else if i == 54 {
        '9'
    } else if i == 55 {
        '0'
    } else if i == 56 {
        '-'
    } else if i == 57 {
        '_'
    } else if i == 58 {
        '='
    } else if i == 59 {
        '+'
    } else if i == 60 {
        ';'
    } else if i == 61 {
        ':'
    } else if i == 62 {
        '\''
    } else if i == 63 {
        '"'
    } else if i == 64 {
        'z'
    } else if i == 65 {
        'x'
    } else if i == 66 {
        'c'
    } else if i == 67 {
        'v'
    } else if i == 68 {
        'b'
    } else if i == 69 {
        'n'
    } else if i == 70 {
        'm'
    } else if i == 71 {
        ','
    } else if i == 72 {
        '<'
    } else if i == 73 {
        '.'
    } else if i == 74 {
        '>'
    } else if i == 75 {
        '/'
    } else {
        '?'
    }
}

/// The Key Alphabet, in order. Duplicate-free (`lemma_key_alphabet_distinct`).
pub open spec fn key_alphabet() -> Seq<char> {
    Seq::new(KEY_LEN as nat, |i: int| key_symbol(i))
}

/// The Character Alphabet, in order.
pub open spec fn char_alphabet() -> Seq<char> {
    Seq::new(CHAR_LEN as nat, |i: int| content_symbol(i))
}

/// Index of the first occurrence of `c` in `a`, if any.
pub open spec fn find_char(a: Seq<char>, c: char) -> Option<int>
    decreases a.len(),
{
    if a.len() == 0 {
        None
    } else if a[0] == c {
        Some(0)
    } else {
        match find_char(a.drop_first(), c) {
            None => None,
            Some(i) => Some(i + 1),
        }
    }
}

/// No symbol occurs twice.
pub open spec fn distinct_seq(a: Seq<char>) -> bool {
    forall|i: int, j: int| 0 <= i < j < a.len() ==> a[i] != a[j]
}

/// What `find_char` returns: the position of the first occurrence of `c`,
/// or `None` when `c` does not occur at all.
pub proof fn lemma_find_char_props(a: Seq<char>, c: char)
    ensures
        match find_char(a, c) {
            Some(i) => 0 <= i < a.len() && a[i] == c && (forall|j: int|
                0 <= j < i ==> a[j] != c),
            None => forall|j: int| 0 <= j < a.len() ==> a[j] != c,
        },
    decreases a.len(),
{
    if a.len() > 0 && a[0] != c {
        let t = a.drop_first();
        lemma_find_char_props(t, c);
        match find_char(t, c) {
            Some(i) => {
                assert(a[i + 1] == t[i]);
                assert forall|j: int| 0 <= j < i + 1 implies a[j] != c by {
                    if j > 0 {
                        assert(t[j - 1] == a[j]);
                        assert(t[j - 1] != c);
                    }
                }
            },
            None => {
                assert forall|j: int| 0 <= j < a.len() implies a[j] != c by {
                    if j > 0 {
                        assert(t[j - 1] == a[j]);
                        assert(t[j - 1] != c);
                    }
                }
            },
        }
    }
}

/// In a duplicate-free table, looking up the symbol stored at position `i`
/// finds exactly position `i`.
pub proof fn lemma_find_char_of_member(a: Seq<char>, i: int)
    requires
        distinct_seq(a),
        0 <= i < a.len(),
    ensures
        find_char(a, a[i]) == Some(i),
{
    lemma_find_char_props(a, a[i]);
    match find_char(a, a[i]) {
        None => {
            assert(a[i] != a[i]);
        },
        Some(k) => {
            if k < i {
                assert(a[k] != a[i]);
            } else if k > i {
                assert(a[i] != a[i]);
            }
        },
    }
}

/// The Key Alphabet holds `KEY_LEN` symbols, no symbol twice.
pub proof fn lemma_key_alphabet_distinct()
    ensures
        key_alphabet().len() == KEY_LEN,
        distinct_seq(key_alphabet()),
{
    assert forall|i: int, j: int|
        0 <= i < j < key_alphabet().len() implies key_alphabet()[i] != key_alphabet()[j] by {
        assert(key_symbol(i) != key_symbol(j));
    }
}

/// The Key Alphabet symbol at position `i`, as executable code.
pub fn key_symbol_at(i: usize) -> (c: char)
    requires
        i < KEY_LEN,
    ensures
        c == key_symbol(i as int),
{
    if i == 0 {
        ' '
    } else if i == 1 {
        '1'
    } else if i == 2 {
        '2'
    } else if i == 3 {
        '3'
    } else if i == 4 {
        '4'
    } else if i == 5 {
        '5'
    } else if i == 6 {
        '6'
    } else if i == 7 {
        '7'
    } else if i == 8 {
        '8'
    } else if i == 9 {
        '9'
    } else if i == 10 {
        '0'
    } else if i == 11 {
        'q'
    } else if i == 12 {
        'w'
    } else if i == 13 {
        'e'
    } else if i == 14 {
        'r'
    } else if i == 15 {
        't'
    } else if i == 16 {
        'y'
    } else if i == 17 {
        'u'
    } else if i == 18 {
        'i'
    } else if i == 19 {
        'o'
    } else if i == 20 {
        'p'
    } else if i == 21 {
        'a'
    } else if i == 22 {
        's'
    } else if i == 23 {
        'd'
    } else if i == 24 {
        'f'
    } else if i == 25 {
        'g'
    } else if i == 26 {
        'h'
    } else if i == 27 {
        'j'
    } else if i == 28 {
        'k'
    } else if i == 29 {
        'l'
    } else if i == 30 {
        'z'
    } else if i == 31 {
        'x'
    } else if i == 32 {
        'c'
    } else if i == 33 {
        'v'
    } else if i == 34 {
        'b'
    } else if i == 35 {
        'n'
    } else if i == 36 {
        'm'
    } else if i == 37 {
        ','
    } else if i == 38 {
        '<'
    } else if i == 39 {
        '.'
    } else if i == 40 {
        '>'
    } else if i == 41 {
        '/'
    } else {
        '?'
    }
}

/// The Key Alphabet as an executable table.
pub fn key_chars() -> (v: Vec<char>)
    ensures
        v@ == key_alphabet(),
{
    let mut v: Vec<char> = Vec::new();
    let mut i: usize = 0;
    while i < KEY_LEN
        invariant
            i <= KEY_LEN,
            v@.len() == i,
            forall|j: int| 0 <= j < i ==> v@[j] == key_symbol(j),
        decreases KEY_LEN - i,
    {
        let c = key_symbol_at(i);
        v.push(c);
        i += 1;
    }
    proof {
        assert(v@ =~= key_alphabet());
    }
    v
}

/// The Character Alphabet symbol at position `i`, as executable code.
pub fn content_symbol_at(i: usize) -> (c: char)
    requires
        i < CHAR_LEN,
    ensures
        c == content_symbol(i as int),
{
    if i == 0 {
        ' '
    } else if i == 1 {
        'Q'
    } else if i == 2 {
        'W'
    } else if i == 3 {
        'E'
    } else if i == 4 {
        'R'
    } else if i == 5 {
        'T'
    } else if i == 6 {
        'Y'
    } else if i == 7 {
        'U'
    } else if i == 8 {
        'I'
    } else if i == 9 {
        'O'
    } else if i == 10 {
        'P'
    } else if i == 11 {
        'A'
    } else if i == 12 {
        'S'
    } else if i == 13 {
        'D'
    } else if i == 14 {
        'F'
    } else if i == 15 {
        'G'
    } else if i == 16 {
        'H'
    } else if i == 17 {
        'J'
    } else if i == 18 {
        'K'
    } else if i == 19 {
        'L'
    } else if i == 20 {
        'Z'
    } else if i == 21 {
        'X'
    } else if i == 22 {
        'C'
    } else if i == 23 {
        'V'
    } else if i == 24 {
        'B'
    } else if i == 25 {
        'N'
    } else if i == 26 {
        'M'
    } else if i == 27 {
        'q'
    } else if i == 28 {
        'w'
    } else if i == 29 {
        'e'
    } else if i == 30 {
        'r'
    } else if i == 31 {
        't'
    } else if i == 32 {
        'y'
    } else if i == 33 {
        'u'
    } else if i == 34 {
        'i'
    } else if i == 35 {
        'o'
    } else if i == 36 {
        'p'
    } else if i == 37 {
        'a'
    } else if i == 38 {
        's'
    } else if i == 39 {
        'd'
    } else if i == 40 {
        'f'
    } else if i == 41 {
        'g'
    } else if i == 42 {
        'h'
    } else if i == 43 {
        'j'
    } else if i == 44 {
        'k'
    } else if i == 45 {
        'l'
    } else if i == 46 {
        '1'
    } else if i == 47 {
        '2'
    } else if i == 48 {
        '3'
    } else if i == 49 {
        '4'
    } else if i == 50 {
        '5'
    } else if i == 51 {
        '6'
    } else if i == 52 {
        '7'
    } else if i == 53 {
        '8'
    } else if i == 54 {
        '9'
    } else if i == 55 {
        '0'
    } else if i == 56 {
        '-'
    } else if i == 57 {
        '_'
    } else if i == 58 {
        '='
    } else if i == 59 {
        '+'
    } else if i == 60 {
        ';'
    } else if i == 61 {
        ':'
    } else if i == 62 {
        '\''
    } else if i == 63 {
        '"'
    } else if i == 64 {
        'z'
    } else if i == 65 {
        'x'
    } else if i == 66 {
        'c'
    } else if i == 67 {
        'v'
    } else if i == 68 {
        'b'
    } else if i == 69 {
        'n'
    } else if i == 70 {
        'm'
    } else if i == 71 {
        ','
    } else if i == 72 {
        '<'
    } else if i == 73 {
        '.'
    } else if i == 74 {
        '>'
    } else if i == 75 {
        '/'
    } else {
        '?'
    }
}

/// The Character Alphabet as an executable table.
pub fn content_chars() -> (v: Vec<char>)
    ensures
        v@ == char_alphabet(),
{
    let mut v: Vec<char> = Vec::new();
    let mut i: usize = 0;
    while i < CHAR_LEN
        invariant
            i <= CHAR_LEN,
            v@.len() == i,
            forall|j: int| 0 <= j < i ==> v@[j] == content_symbol(j),
        decreases CHAR_LEN - i,
    {
        let c = content_symbol_at(i);
        v.push(c);
        i += 1;
    }
    proof {
        assert(v@ =~= char_alphabet());
    }
    v
}

/// Position of the first occurrence of `c` in the table `v`, if any.
pub fn find_in(v: &Vec<char>, c: char) -> (r: Option<usize>)
    ensures
        match r {
            Some(k) => find_char(v@, c) == Some(k as int),
            None => find_char(v@, c) is None,
        },
{
    let mut idx: usize = 0;
    while idx < v.len()
        invariant
            idx <= v.len(),
            forall|j: int| 0 <= j < idx ==> v@[j] != c,
        decreases v.len() - idx,
    {
        if v[idx] == c {
            proof {
                lemma_find_char_props(v@, c);
            }
            return Some(idx);
        }
        idx += 1;
    }
    proof {
        lemma_find_char_props(v@, c);
    }
    None
}

/// Key index of `c`: its position in the Key Alphabet, if it is a member.
pub fn get_k(c: char) -> (r: Option<usize>)
    ensures
        match r {
            Some(k) => find_char(key_alphabet(), c) == Some(k as int),
            None => find_char(key_alphabet(), c) is None,
        },
{
    let v = key_chars();
    find_in(&v, c)
}

} // verus!
