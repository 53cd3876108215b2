//! Reading a yes-or-no setting from the value of an environment variable.

use vstd::prelude::*;

verus! {

/// The byte in lower case, where it is an ASCII capital.
pub open spec fn lower(byte: u8) -> u8 {
    if 65 <= byte <= 90 {
        (byte + 32) as u8
    } else {
        byte
    }
}

/// The text in lower case.
pub open spec fn lowered(text: Seq<u8>) -> Seq<u8> {
    Seq::new(text.len(), |i: int| lower(text[i]))
}

/// The words that mean no: the empty word, `0`, `false`, `f`, `no`, `n`
/// and `off`.
pub open spec fn means_no(word: Seq<u8>) -> bool {
    ||| word == Seq::<u8>::empty()
    ||| word == seq![48u8]
    ||| word == seq![102u8, 97u8, 108u8, 115u8, 101u8]
    ||| word == seq![102u8]
    ||| word == seq![110u8, 111u8]
    ||| word == seq![110u8]
    ||| word == seq![111u8, 102u8, 102u8]
}

/// The words that mean yes: `1`, `true`, `t`, `yes`, `y` and `on`.
pub open spec fn means_yes(word: Seq<u8>) -> bool {
    ||| word == seq![49u8]
    ||| word == seq![116u8, 114u8, 117u8, 101u8]
    ||| word == seq![116u8]
    ||| word == seq![121u8, 101u8, 115u8]
    ||| word == seq![121u8]
    ||| word == seq![111u8, 110u8]
}

/// What the value of a variable says: the default where the variable is
/// not set, yes or no where the value in lower case is one of the words,
/// and nothing otherwise.
pub open spec fn bool_of(value: Option<Seq<u8>>, default: bool) -> Option<bool> {
    match value {
        None => Some(default),
        Some(text) => if means_no(lowered(text)) {
            Some(false)
        } else if means_yes(lowered(text)) {
            Some(true)
        } else {
            None
        },
    }
}

/// The contents of an optional value.
pub open spec fn value_model(value: Option<&[u8]>) -> Option<Seq<u8>> {
    match value {
        Some(bytes) => Some(bytes@),
        None => None,
    }
}

/// The text in lower case.
fn to_lower(text: &[u8]) -> (word: Vec<u8>)
    ensures
        word@ == lowered(text@),
{
    let mut word: Vec<u8> = Vec::new();
    let mut i: usize = 0;
    while i < text.len()
        invariant
            i <= text.len(),
            word@.len() == i,
            forall|j: int| 0 <= j < i ==> word@[j] == lower(text@[j]),
        decreases text.len() - i,
    {
        let byte = text[i];
        if 65 <= byte && byte <= 90 {
            word.push(byte + 32);
        } else {
            word.push(byte);
        }
        i += 1;
    }
    proof {
        assert(word@ =~= lowered(text@));
    }
    word
}

/// Tells whether `word` is the given word of up to five bytes.
fn is_word(word: &Vec<u8>, letters: [u8; 5], count: usize) -> (same: bool)
    requires
        count <= 5,
    ensures
        same == (word@ == letters@.take(count as int)),
{
    if word.len() != count {
        return false;
    }
    let mut i: usize = 0;
    while i < count
        invariant
            i <= count <= 5,
            word.len() == count,
            forall|j: int| 0 <= j < i ==> word@[j] == letters@[j],
        decreases count - i,
    {
        if word[i] != letters[i] {
            return false;
        }
        i += 1;
    }
    proof {
        assert(word@ =~= letters@.take(count as int));
    }
    true
}

/// Reads a yes-or-no setting from the value of an environment variable.
///
/// A variable that is not set gives the default. A value that, in lower
/// case, is empty or one of `0`, `false`, `f`, `no`, `n`, `off` gives no;
/// one of `1`, `true`, `t`, `yes`, `y`, `on` gives yes. Any other value is
/// invalid and gives `None`.
pub fn parse_bool_env(value: Option<&[u8]>, default: bool) -> (setting: Option<bool>)
    ensures
        setting == bool_of(value_model(value), default),
{
    let text = match value {
        None => {
            return Some(default);
        },
        Some(text) => text,
    };
    let word = to_lower(text);
    proof {
        assert([0u8, 0u8, 0u8, 0u8, 0u8]@.take(0) =~= Seq::<u8>::empty());
        assert([48u8, 0u8, 0u8, 0u8, 0u8]@.take(1) =~= seq![48u8]);
        assert([102u8, 97u8, 108u8, 115u8, 101u8]@.take(5) =~= seq![
            102u8,
            97u8,
            108u8,
            115u8,
            101u8,
        ]);
        assert([102u8, 0u8, 0u8, 0u8, 0u8]@.take(1) =~= seq![102u8]);
        assert([110u8, 111u8, 0u8, 0u8, 0u8]@.take(2) =~= seq![110u8, 111u8]);
        assert([110u8, 0u8, 0u8, 0u8, 0u8]@.take(1) =~= seq![110u8]);
        assert([111u8, 102u8, 102u8, 0u8, 0u8]@.take(3) =~= seq![111u8, 102u8, 102u8]);
        assert([49u8, 0u8, 0u8, 0u8, 0u8]@.take(1) =~= seq![49u8]);
        assert([116u8, 114u8, 117u8, 101u8, 0u8]@.take(4) =~= seq![116u8, 114u8, 117u8, 101u8]);
        assert([116u8, 0u8, 0u8, 0u8, 0u8]@.take(1) =~= seq![116u8]);
        assert([121u8, 101u8, 115u8, 0u8, 0u8]@.take(3) =~= seq![121u8, 101u8, 115u8]);
        assert([121u8, 0u8, 0u8, 0u8, 0u8]@.take(1) =~= seq![121u8]);
        assert([111u8, 110u8, 0u8, 0u8, 0u8]@.take(2) =~= seq![111u8, 110u8]);
    }
    if is_word(&word, [0u8, 0u8, 0u8, 0u8, 0u8], 0) || is_word(&word, [48u8, 0u8, 0u8, 0u8, 0u8], 1)
        || is_word(&word, [102u8, 97u8, 108u8, 115u8, 101u8], 5) || is_word(
        &word,
        [102u8, 0u8, 0u8, 0u8, 0u8],
        1,
    ) || is_word(&word, [110u8, 111u8, 0u8, 0u8, 0u8], 2) || is_word(
        &word,
        [110u8, 0u8, 0u8, 0u8, 0u8],
        1,
    ) || is_word(&word, [111u8, 102u8, 102u8, 0u8, 0u8], 3) {
        Some(false)
    } else if is_word(&word, [49u8, 0u8, 0u8, 0u8, 0u8], 1) || is_word(
        &word,
        [116u8, 114u8, 117u8, 101u8, 0u8],
        4,
    ) || is_word(&word, [116u8, 0u8, 0u8, 0u8, 0u8], 1) || is_word(
        &word,
        [121u8, 101u8, 115u8, 0u8, 0u8],
        3,
    ) || is_word(&word, [121u8, 0u8, 0u8, 0u8, 0u8], 1) || is_word(
        &word,
        [111u8, 110u8, 0u8, 0u8, 0u8],
        2,
    ) {
        Some(true)
    } else {
        None
    }
}

} // verus!
