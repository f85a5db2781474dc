//! Splitting text into word-like pieces before byte-pair merging.
use crate::text::to_chars;
use crate::model::pieces::text_views;
use vstd::prelude::*;

verus! {

/// Whether a character has the Unicode property Alphabetic.
pub uninterp spec fn alphabetic(c: char) -> bool;

/// `char::is_alphabetic`. Among ASCII characters these are the letters; the
/// others are left to the Unicode tables, under the name `alphabetic`.
pub assume_specification[ char::is_alphabetic ](c: char) -> (b: bool)
    ensures
        b == alphabetic(c),
        (c as u32) < 128 ==> b == ('a' <= c <= 'z' || 'A' <= c <= 'Z'),
;

/// Rough character classes.
#[derive(Debug, Clone, Copy, PartialEq, Eq, Structural)]
pub enum Class {
    Letter,
    Digit,
    Space,
    /// Everything else, other white space among it.
    Other,
}

/// The class of a character that is, or is not, alphabetic.
pub open spec fn class_of(c: char, letter: bool) -> Class {
    if letter {
        Class::Letter
    } else if '0' <= c <= '9' {
        Class::Digit
    } else if c == ' ' {
        Class::Space
    } else {
        Class::Other
    }
}

/// The class of a character, given whether it is alphabetic.
pub fn classify(c: char, letter: bool) -> (cl: Class)
    ensures
        cl == class_of(c, letter),
{
    if letter {
        Class::Letter
    } else if '0' <= c && c <= '9' {
        Class::Digit
    } else if c == ' ' {
        Class::Space
    } else {
        Class::Other
    }
}

/// The classes of some characters.
pub open spec fn classes_of(text: Seq<char>) -> Seq<Class> {
    Seq::new(text.len(), |i: int| class_of(text[i], alphabetic(text[i])))
}

/// A split of a text: the finished pieces, and the one that is still open.
pub struct Split {
    pub done: Seq<Seq<char>>,
    pub open: Seq<char>,
}

/// Splitting the first `n` characters. A piece ends where the class changes,
/// except that a piece which is a single space goes on into what follows it.
pub open spec fn split_prefix(text: Seq<char>, classes: Seq<Class>, n: nat) -> Split
    decreases n,
{
    if n == 0 {
        Split { done: seq![], open: seq![] }
    } else {
        let s = split_prefix(text, classes, (n - 1) as nat);
        let c = text[n - 1];
        if n >= 2 && classes[n - 1] != classes[n - 2] && s.open != seq![' '] {
            Split { done: s.done.push(s.open), open: seq![c] }
        } else {
            Split { done: s.done, open: s.open.push(c) }
        }
    }
}

/// The pieces of a text.
pub open spec fn pieces(text: Seq<char>, classes: Seq<Class>) -> Seq<Seq<char>> {
    let s = split_prefix(text, classes, text.len());
    if s.open.len() == 0 {
        s.done
    } else {
        s.done.push(s.open)
    }
}

/// Texts one after the other.
pub open spec fn concat(parts: Seq<Seq<char>>) -> Seq<char>
    decreases parts.len(),
{
    if parts.len() == 0 {
        seq![]
    } else {
        concat(parts.drop_last()) + parts.last()
    }
}

proof fn lemma_split_concat(text: Seq<char>, classes: Seq<Class>, n: nat)
    requires
        n <= text.len(),
    ensures
        concat(split_prefix(text, classes, n).done) + split_prefix(text, classes, n).open
            == text.take(n as int),
        n > 0 ==> split_prefix(text, classes, n).open.len() > 0,
        forall|i: int|
            0 <= i < split_prefix(text, classes, n).done.len() ==> (#[trigger] split_prefix(
                text,
                classes,
                n,
            ).done[i]).len() > 0,
    decreases n,
{
    if n == 0 {
        assert(concat(seq![]) + seq![] =~= text.take(0));
    } else {
        let m = (n - 1) as nat;
        lemma_split_concat(text, classes, m);
        let s = split_prefix(text, classes, m);
        let t = split_prefix(text, classes, n);
        assert(text.take(n as int) =~= text.take(m as int).push(text[n - 1]));
        if n >= 2 && classes[n - 1] != classes[n - 2] && s.open != seq![' '] {
            assert(s.done.push(s.open).drop_last() =~= s.done);
            assert(concat(t.done) == concat(s.done) + s.open);
            assert(concat(t.done) + t.open =~= text.take(n as int));
        } else {
            assert(concat(s.done) + s.open.push(text[n - 1]) =~= (concat(s.done) + s.open).push(
                text[n - 1],
            ));
        }
    }
}

/// The pieces of a text, put together, are the text; none of them is empty.
pub proof fn law_pieces_cover_text(text: Seq<char>, classes: Seq<Class>)
    ensures
        concat(pieces(text, classes)) == text,
        forall|i: int|
            0 <= i < pieces(text, classes).len() ==> (#[trigger] pieces(text, classes)[i]).len()
                > 0,
{
    lemma_split_concat(text, classes, text.len());
    let s = split_prefix(text, classes, text.len());
    assert(text.take(text.len() as int) =~= text);
    if s.open.len() == 0 {
        assert(concat(s.done) + s.open =~= concat(s.done));
    } else {
        assert(s.done.push(s.open).drop_last() =~= s.done);
    }
}

/// A piece is one space followed by characters of one class, or characters of
/// one class throughout.
pub open spec fn uniform(piece: Seq<char>) -> bool {
    forall|i: int, j: int|
        #![trigger piece[i], piece[j]]
        0 <= i < piece.len() && 0 <= j < piece.len() && (i > 0 || piece[0] != ' ') && (j > 0
            || piece[0] != ' ') ==> class_of(piece[i], alphabetic(piece[i])) == class_of(
            piece[j],
            alphabetic(piece[j]),
        )
}

/// The last character of the open piece is the last one read, and the open
/// piece is uniform.
proof fn lemma_split_uniform(text: Seq<char>, n: nat)
    requires
        n <= text.len(),
        forall|i: int| 0 <= i < text.len() ==> (alphabetic(#[trigger] text[i]) ==> text[i] != ' '),
    ensures
        n > 0 ==> split_prefix(text, classes_of(text), n).open.len() > 0 && split_prefix(
            text,
            classes_of(text),
            n,
        ).open.last() == text[n - 1],
        uniform(split_prefix(text, classes_of(text), n).open),
        forall|i: int|
            0 <= i < split_prefix(text, classes_of(text), n).done.len() ==> uniform(
                #[trigger] split_prefix(text, classes_of(text), n).done[i],
            ),
    decreases n,
{
    if n > 0 {
        let m = (n - 1) as nat;
        lemma_split_uniform(text, m);
        let s = split_prefix(text, classes_of(text), m);
        let t = split_prefix(text, classes_of(text), n);
        let c = text[n - 1];
        if n >= 2 {
            assert(alphabetic(text[n - 1]) ==> text[n - 1] != ' ');
            assert(alphabetic(text[n - 2]) ==> text[n - 2] != ' ');
            if classes_of(text)[n - 1] != classes_of(text)[n - 2] && s.open != seq![' '] {
                assert forall|i: int| 0 <= i < t.done.len() implies uniform(#[trigger] t.done[i]) by {
                    if i < s.done.len() {
                        assert(t.done[i] == s.done[i]);
                    }
                }
            } else {
                assert(t.open =~= s.open.push(c));
                let o = t.open;
                assert forall|i: int, j: int|
                    #![trigger o[i], o[j]]
                    0 <= i < o.len() && 0 <= j < o.len() && (i > 0 || o[0] != ' ') && (j > 0 || o[0]
                        != ' ') implies class_of(o[i], alphabetic(o[i])) == class_of(
                    o[j],
                    alphabetic(o[j]),
                ) by {
                    let last = s.open.len() - 1;
                    assert(s.open[last] == text[n - 2]);
                    if s.open.len() == 1 && s.open[0] == ' ' {
                        assert(s.open =~= seq![' ']);
                    } else {
                        if i < s.open.len() && j < s.open.len() {
                            assert(class_of(s.open[i], alphabetic(s.open[i])) == class_of(
                                s.open[j],
                                alphabetic(s.open[j]),
                            ));
                        }
                        if last > 0 || s.open[0] != ' ' {
                            if i < s.open.len() {
                                assert(class_of(s.open[i], alphabetic(s.open[i])) == class_of(
                                    s.open[last],
                                    alphabetic(s.open[last]),
                                ));
                            }
                            if j < s.open.len() {
                                assert(class_of(s.open[j], alphabetic(s.open[j])) == class_of(
                                    s.open[last],
                                    alphabetic(s.open[last]),
                                ));
                            }
                        }
                    }
                }
            }
        }
    }
}

/// Every piece of a text is uniform. (A space is not alphabetic.)
pub proof fn law_pieces_are_uniform(text: Seq<char>)
    requires
        forall|i: int| 0 <= i < text.len() ==> (alphabetic(#[trigger] text[i]) ==> text[i] != ' '),
    ensures
        forall|i: int|
            0 <= i < pieces(text, classes_of(text)).len() ==> uniform(
                #[trigger] pieces(text, classes_of(text))[i],
            ),
{
    lemma_split_uniform(text, text.len());
}

/// Whether the piece is a single space.
fn is_space(piece: &String) -> (b: bool)
    ensures
        b == (piece@ == seq![' ']),
{
    let chars = to_chars(piece.as_str());
    let one: bool = chars.len() == 1 && chars[0] == ' ';
    proof {
        if one {
            assert(piece@ =~= seq![' ']);
        }
    }
    one
}

/// Splits characters of the given classes into pieces.
pub fn split_by_class(chars: &[char], classes: &[Class]) -> (out: Vec<String>)
    requires
        chars.len() == classes.len(),
    ensures
        text_views(out@) == pieces(chars@, classes@),
{
    let mut done: Vec<String> = Vec::new();
    let mut open = String::new();
    let mut space: bool = false;
    let mut i: usize = 0;
    proof {
        assert(text_views(done@) =~= seq![]);
    }
    while i < chars.len()
        invariant
            chars.len() == classes.len(),
            i <= chars.len(),
            text_views(done@) == split_prefix(chars@, classes@, i as nat).done,
            open@ == split_prefix(chars@, classes@, i as nat).open,
            space == (open@ == seq![' ']),
        decreases chars.len() - i,
    {
        let c: char = chars[i];
        if i > 0 && classes[i] != classes[i - 1] && !space {
            let ghost before = done@;
            let ghost piece = open@;
            done.push(open);
            open = String::new();
            proof {
                assert(text_views(done@) =~= text_views(before).push(piece));
            }
            open.push(c);
            proof {
                assert(open@ =~= seq![c]);
            }
        } else {
            open.push(c);
        }
        space = is_space(&open);
        i += 1;
    }
    proof {
        lemma_split_concat(chars@, classes@, chars@.len());
    }
    if i > 0 {
        let ghost before = done@;
        let ghost piece = open@;
        done.push(open);
        proof {
            assert(text_views(done@) =~= text_views(before).push(piece));
        }
    }
    done
}

/// Splits text into pieces that keep one leading space, grouped by class.
pub fn pre_tokenize(text: &str) -> (out: Vec<String>)
    ensures
        text_views(out@) == pieces(text@, classes_of(text@)),
{
    let chars = to_chars(text);
    let mut classes: Vec<Class> = Vec::new();
    let mut i: usize = 0;
    while i < chars.len()
        invariant
            chars@ == text@,
            i <= chars.len(),
            classes@ == classes_of(text@).take(i as int),
        decreases chars.len() - i,
    {
        let c: char = chars[i];
        classes.push(classify(c, c.is_alphabetic()));
        proof {
            assert(classes@ =~= classes_of(text@).take(i + 1));
        }
        i += 1;
    }
    proof {
        assert(classes_of(text@).take(i as int) =~= classes_of(text@));
    }
    split_by_class(chars.as_slice(), classes.as_slice())
}

} // verus!
