//! Vocabulary pieces: byte strings, and finding the first of them that equals
//! a given one.
use vstd::hash_map::StringHashMap;
use vstd::prelude::*;

verus! {

/// Index of the first piece of `vocab` that equals `piece`.
pub open spec fn first_index<T>(vocab: Seq<Seq<T>>, piece: Seq<T>) -> Option<int>
    decreases vocab.len(),
{
    if vocab.len() == 0 {
        None
    } else {
        match first_index(vocab.drop_last(), piece) {
            Some(i) => Some(i),
            None => if vocab.last() == piece {
                Some(vocab.len() - 1)
            } else {
                None
            },
        }
    }
}

/// The first index is one where the piece stands, and no earlier one is.
pub proof fn law_first_index<T>(vocab: Seq<Seq<T>>, piece: Seq<T>)
    ensures
        match first_index(vocab, piece) {
            Some(i) => 0 <= i < vocab.len() && vocab[i] == piece && forall|j: int|
                0 <= j < i ==> #[trigger] vocab[j] != piece,
            None => forall|j: int| 0 <= j < vocab.len() ==> #[trigger] vocab[j] != piece,
        },
    decreases vocab.len(),
{
    if vocab.len() > 0 {
        let rest = vocab.drop_last();
        law_first_index(rest, piece);
        assert forall|j: int| 0 <= j < rest.len() implies rest[j] == vocab[j] by {}
        match first_index(rest, piece) {
            Some(i) => {
                assert(rest[i] == vocab[i]);
                assert forall|j: int| 0 <= j < i implies #[trigger] vocab[j] != piece by {
                    assert(rest[j] != piece);
                }
            },
            None => {
                assert forall|j: int| 0 <= j < rest.len() implies #[trigger] vocab[j] != piece by {
                    assert(rest[j] != piece);
                }
            },
        }
    }
}

/// The text whose characters have the bytes' values.
pub open spec fn byte_text(bytes: Seq<u8>) -> Seq<char> {
    Seq::new(bytes.len(), |i: int| bytes[i] as char)
}

/// Different byte strings have different texts.
proof fn lemma_byte_text_injective(a: Seq<u8>, b: Seq<u8>)
    requires
        byte_text(a) == byte_text(b),
    ensures
        a == b,
{
    assert(a.len() == byte_text(a).len() && b.len() == byte_text(b).len());
    assert forall|i: int| 0 <= i < a.len() implies a[i] == b[i] by {
        assert(byte_text(a)[i] == a[i] as char);
        assert(byte_text(b)[i] == b[i] as char);
        assert((a[i] as char) as int == a[i] as int);
        assert((b[i] as char) as int == b[i] as int);
    }
    assert(a =~= b);
}

/// The text of a byte string.
fn byte_key(bytes: &[u8]) -> (s: String)
    ensures
        s@ == byte_text(bytes@),
{
    let mut s = String::new();
    let mut i: usize = 0;
    while i < bytes.len()
        invariant
            i <= bytes.len(),
            s@ == byte_text(bytes@.take(i as int)),
        decreases bytes.len() - i,
    {
        s.push(bytes[i] as char);
        proof {
            assert(s@ =~= byte_text(bytes@.take(i + 1)));
        }
        i += 1;
    }
    proof {
        assert(bytes@.take(i as int) =~= bytes@);
    }
    s
}

/// What some byte strings are.
pub open spec fn piece_views(pieces: Seq<Vec<u8>>) -> Seq<Seq<u8>> {
    Seq::new(pieces.len(), |i: int| pieces[i]@)
}

/// What some texts are.
pub open spec fn text_views(texts: Seq<String>) -> Seq<Seq<char>> {
    Seq::new(texts.len(), |i: int| texts[i]@)
}

/// Finds byte pieces by content.
pub struct PieceIndex {
    ids: StringHashMap<u32>,
}

impl PieceIndex {
    /// The index answers for `vocab`.
    pub closed spec fn indexes(&self, vocab: Seq<Seq<u8>>) -> bool {
        forall|piece: Seq<u8>|
            #![trigger first_index(vocab, piece)]
            #![trigger byte_text(piece)]
            match first_index(vocab, piece) {
                Some(i) => self.ids@.dom().contains(byte_text(piece)) && self.ids@[byte_text(
                    piece,
                )] == i,
                None => !self.ids@.dom().contains(byte_text(piece)),
            }
    }

    /// Indexes a vocabulary.
    pub fn new(vocab: &Vec<Vec<u8>>) -> (index: Self)
        requires
            vocab@.len() <= u32::MAX,
        ensures
            index.indexes(piece_views(vocab@)),
    {
        let mut ids: StringHashMap<u32> = StringHashMap::new();
        let mut i: usize = 0;
        let ghost mut done: Seq<Seq<u8>> = seq![];
        while i < vocab.len()
            invariant
                vocab@.len() <= u32::MAX,
                i <= vocab.len(),
                done == piece_views(vocab@).take(i as int),
                (PieceIndex { ids }).indexes(done),
            decreases vocab.len() - i,
        {
            let key = byte_key(vocab[i].as_slice());
            let ghost before = ids@;
            let ghost p = vocab[i as int]@;
            let ghost more = piece_views(vocab@).take(i + 1);
            if !ids.contains_key(key.as_str()) {
                ids.insert(key, i as u32);
            }
            proof {
                assert(more.drop_last() =~= done);
                assert(more.last() == p);
                assert forall|piece: Seq<u8>|
                    #![trigger first_index(more, piece)]
                    #![trigger byte_text(piece)]
                    match first_index(more, piece) {
                        Some(k) => ids@.dom().contains(byte_text(piece)) && ids@[byte_text(piece)]
                            == k,
                        None => !ids@.dom().contains(byte_text(piece)),
                    } by {
                    assert(match first_index(done, piece) {
                        Some(k) => before.dom().contains(byte_text(piece)) && before[byte_text(
                            piece,
                        )] == k,
                        None => !before.dom().contains(byte_text(piece)),
                    });
                    if byte_text(piece) == byte_text(p) {
                        lemma_byte_text_injective(piece, p);
                    }
                }
                done = more;
            }
            i += 1;
        }
        proof {
            assert(piece_views(vocab@).take(i as int) =~= piece_views(vocab@));
        }
        PieceIndex { ids }
    }

    /// The id of a piece.
    pub(crate) fn find(&self, piece: &[u8], vocab: Ghost<Seq<Seq<u8>>>) -> (id: Option<u32>)
        requires
            self.indexes(vocab@),
        ensures
            match first_index(vocab@, piece@) {
                Some(i) => id == Some(i as u32) && i <= u32::MAX,
                None => id is None,
            },
    {
        let key = byte_key(piece);
        match self.ids.get(key.as_str()) {
            Some(id) => Some(*id),
            None => None,
        }
    }
}

/// Finds texts by content.
pub struct TextIndex {
    ids: StringHashMap<u32>,
}

impl TextIndex {
    /// The index answers for `vocab`.
    pub closed spec fn indexes(&self, vocab: Seq<Seq<char>>) -> bool {
        forall|piece: Seq<char>| #[trigger]
            first_index(vocab, piece) == (if self.ids@.dom().contains(piece) {
                Some(self.ids@[piece] as int)
            } else {
                None
            })
    }

    /// Indexes a vocabulary.
    pub fn new(vocab: &Vec<String>) -> (index: Self)
        requires
            vocab@.len() <= u32::MAX,
        ensures
            index.indexes(text_views(vocab@)),
    {
        let mut ids: StringHashMap<u32> = StringHashMap::new();
        let mut i: usize = 0;
        let ghost mut done: Seq<Seq<char>> = seq![];
        while i < vocab.len()
            invariant
                vocab@.len() <= u32::MAX,
                i <= vocab.len(),
                done == text_views(vocab@).take(i as int),
                (TextIndex { ids }).indexes(done),
            decreases vocab.len() - i,
        {
            let ghost before = ids@;
            let ghost p = vocab[i as int]@;
            let ghost more = text_views(vocab@).take(i + 1);
            if !ids.contains_key(vocab[i].as_str()) {
                ids.insert(vocab[i].as_str().to_owned(), i as u32);
            }
            proof {
                assert(more.drop_last() =~= done);
                assert(more.last() == p);
                assert forall|piece: Seq<char>| #[trigger]
                    first_index(more, piece) == (if ids@.dom().contains(piece) {
                        Some(ids@[piece] as int)
                    } else {
                        None
                    }) by {
                    assert(first_index(done, piece) == (if before.dom().contains(piece) {
                        Some(before[piece] as int)
                    } else {
                        None
                    }));
                }
                done = more;
            }
            i += 1;
        }
        proof {
            assert(text_views(vocab@).take(i as int) =~= text_views(vocab@));
        }
        TextIndex { ids }
    }

    /// The id of a text.
    pub(crate) fn find(&self, piece: &str, vocab: Ghost<Seq<Seq<char>>>) -> (id: Option<u32>)
        requires
            self.indexes(vocab@),
        ensures
            match first_index(vocab@, piece@) {
                Some(i) => id == Some(i as u32) && i <= u32::MAX,
                None => id is None,
            },
    {
        proof {
            assert(first_index(vocab@, piece@) == first_index(vocab@, piece@));
        }
        match self.ids.get(piece) {
            Some(id) => Some(*id),
            None => None,
        }
    }
}

} // verus!
