//! Text for bytes: each byte is written as the character at its place in a table of
//! characters, so that a scorer's settings can be passed around as a short string.
use vstd::prelude::*;

verus! {

/// The place of the first `c` in `table`, or -1 where it has none.
pub open spec fn char_place(table: Seq<char>, c: char) -> int
    decreases table.len(),
{
    if table.len() == 0 {
        -1
    } else if table[0] == c {
        0
    } else {
        let r = char_place(table.drop_first(), c);
        if r < 0 {
            -1
        } else {
            r + 1
        }
    }
}

/// Whether `c` stands for a byte: its first place in the table is below 256.
pub open spec fn stands_for_byte(table: Seq<char>, c: char) -> bool {
    0 <= char_place(table, c) < 256
}

/// The bytes that `text` stands for, each character for the byte of its first place in
/// the table; nothing where a character stands for no byte.
pub open spec fn spec_decode(table: Seq<char>, text: Seq<char>) -> Option<Seq<u8>>
    decreases text.len(),
{
    if text.len() == 0 {
        Some(Seq::empty())
    } else {
        match spec_decode(table, text.drop_last()) {
            None => None,
            Some(b) => if stands_for_byte(table, text.last()) {
                Some(b.push(char_place(table, text.last()) as u8))
            } else {
                None
            },
        }
    }
}

/// The text of some bytes: each byte written as the character at its place in the table.
pub open spec fn spec_encode(table: Seq<char>, bytes: Seq<u8>) -> Seq<char> {
    bytes.map_values(|b: u8| table[b as int])
}

proof fn lemma_place_bounds(table: Seq<char>, c: char)
    ensures
        -1 <= char_place(table, c) < table.len(),
        char_place(table, c) >= 0 ==> table[char_place(table, c)] == c,
        char_place(table, c) >= 0 ==> forall|j: int| 0 <= j < char_place(table, c) ==> table[j] != c,
        char_place(table, c) < 0 ==> forall|j: int| 0 <= j < table.len() ==> table[j] != c,
    decreases table.len(),
{
    if table.len() > 0 && table[0] != c {
        lemma_place_bounds(table.drop_first(), c);
        assert forall|j: int| 1 <= j < table.len() implies table[j] == table.drop_first()[j - 1] by {}
    }
}

proof fn lemma_place_is_first(table: Seq<char>, c: char, k: int)
    requires
        0 <= k < table.len(),
        table[k] == c,
        forall|j: int| 0 <= j < k ==> table[j] != c,
    ensures
        char_place(table, c) == k,
{
    lemma_place_bounds(table, c);
}

proof fn lemma_decode_all(table: Seq<char>, text: Seq<char>)
    ensures
        spec_decode(table, text) is Some <==> forall|i: int| 0 <= i < text.len() ==> stands_for_byte(table, #[trigger] text[i]),
        spec_decode(table, text) matches Some(b) ==> b.len() == text.len() && forall|i: int|
            0 <= i < text.len() ==> b[i] as int == char_place(table, #[trigger] text[i]),
    decreases text.len(),
{
    if text.len() > 0 {
        let d = text.drop_last();
        lemma_decode_all(table, d);
        assert forall|i: int| 0 <= i < d.len() implies d[i] == text[i] by {}
    }
}

/// The place in `table` of the first `c`, if there is one.
fn find_place(table: &Vec<char>, c: char) -> (res: Option<usize>)
    ensures
        match res {
            Some(k) => k as int == char_place(table@, c),
            None => char_place(table@, c) == -1,
        },
{
    proof {
        lemma_place_bounds(table@, c);
    }
    let mut k: usize = 0;
    while k < table.len()
        invariant
            k <= table@.len(),
            forall|j: int| 0 <= j < k ==> table@[j] != c,
        decreases table@.len() - k,
    {
        if table[k] == c {
            proof {
                lemma_place_is_first(table@, c, k as int);
            }
            return Some(k);
        }
        k += 1;
    }
    None
}

/// The bytes that `text` stands for in `table`, each character for the byte of its first
/// place there; refused with the first character that stands for no byte (one the table
/// lacks, or whose first place is past 255).
pub fn decode_text(table: &Vec<char>, text: &Vec<char>) -> (res: Result<Vec<u8>, char>)
    ensures
        res is Ok <==> spec_decode(table@, text@) is Some,
        res matches Ok(b) ==> Some(b@) == spec_decode(table@, text@),
        res matches Err(c) ==> exists|i: int|
            0 <= i < text@.len() && text@[i] == c && !stands_for_byte(table@, c) && forall|j: int|
                0 <= j < i ==> stands_for_byte(table@, #[trigger] text@[j]),
{
    let mut bytes: Vec<u8> = Vec::new();
    let mut i: usize = 0;
    while i < text.len()
        invariant
            i <= text@.len(),
            Some(bytes@) == spec_decode(table@, text@.take(i as int)),
            forall|j: int| 0 <= j < i ==> stands_for_byte(table@, #[trigger] text@[j]),
        decreases text@.len() - i,
    {
        let c = text[i];
        proof {
            assert(text@.take(i + 1).drop_last() =~= text@.take(i as int));
            assert(text@.take(i + 1).last() == c);
        }
        match find_place(table, c) {
            Some(k) => {
                if k < 256 {
                    bytes.push(k as u8);
                } else {
                    proof {
                        assert(!stands_for_byte(table@, text@[i as int]));
                        lemma_decode_all(table@, text@);
                    }
                    return Err(c);
                }
            },
            None => {
                proof {
                    assert(!stands_for_byte(table@, text@[i as int]));
                    lemma_decode_all(table@, text@);
                }
                return Err(c);
            },
        }
        i += 1;
    }
    proof {
        assert(text@.take(text@.len() as int) =~= text@);
    }
    Ok(bytes)
}

/// The text of `bytes` in `table`: each byte written as the character at its place there.
pub fn encode_bytes(table: &Vec<char>, bytes: &Vec<u8>) -> (res: Vec<char>)
    requires
        forall|i: int| 0 <= i < bytes@.len() ==> (#[trigger] bytes@[i]) < table@.len(),
    ensures
        res@ == spec_encode(table@, bytes@),
{
    let mut text: Vec<char> = Vec::new();
    let mut i: usize = 0;
    while i < bytes.len()
        invariant
            i <= bytes@.len(),
            forall|j: int| 0 <= j < bytes@.len() ==> (#[trigger] bytes@[j]) < table@.len(),
            text@ == spec_encode(table@, bytes@.take(i as int)),
        decreases bytes@.len() - i,
    {
        text.push(table[bytes[i] as usize]);
        proof {
            assert(spec_encode(table@, bytes@.take(i + 1)) =~= spec_encode(table@, bytes@.take(i as int)).push(
                table@[bytes@[i as int] as int],
            ));
        }
        i += 1;
    }
    proof {
        assert(bytes@.take(bytes@.len() as int) =~= bytes@);
    }
    text
}

/// With a table whose characters are all different, the text of some bytes stands for
/// those bytes again.
pub proof fn law_decode_inverts_encode(table: Seq<char>, bytes: Seq<u8>)
    requires
        forall|i: int, j: int| 0 <= i < j < table.len() ==> table[i] != table[j],
        forall|i: int| 0 <= i < bytes.len() ==> (#[trigger] bytes[i]) < table.len(),
    ensures
        spec_decode(table, spec_encode(table, bytes)) == Some(bytes),
    decreases bytes.len(),
{
    if bytes.len() > 0 {
        let d = bytes.drop_last();
        assert forall|i: int| 0 <= i < d.len() implies (#[trigger] d[i]) < table.len() by {
            assert(d[i] == bytes[i]);
        }
        law_decode_inverts_encode(table, d);
        let t = spec_encode(table, bytes);
        assert(t.drop_last() =~= spec_encode(table, d));
        let k = bytes.last() as int;
        assert(t.last() == table[k]);
        assert forall|j: int| 0 <= j < k implies table[j] != table[k] by {}
        lemma_place_is_first(table, table[k], k);
        assert(d.push(bytes.last()) =~= bytes);
    }
}

} // verus!
