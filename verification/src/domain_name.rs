//! Domain names: a validated sequence of labels held as its canonical text,
//! each label followed by a `.`, the root name being the lone `.`.

use crate::labels::{
    labels_of, lemma_first_piece, lemma_labels_with_label, lemma_split_dot_free, lemma_split_join,
    lemma_split_pieces_dot_free, lemma_text_of_grows, lemma_text_of_labels, lemma_text_of_next,
    root_text, split_dots, text_of, text_with_label,
};
use crate::text::{
    first_dot, lemma_char_boundary_at_ascii, lemma_char_boundary_behind_ascii, lemma_dot_in_text,
    lemma_dot_text, lemma_encode_utf8_concat, lowercase, DOT,
};
use vstd::prelude::*;
use vstd::std_specs::cmp::PartialEqSpecImpl;
use vstd::std_specs::convert::{FromSpecImpl, TryFromSpecImpl};
use vstd::string::*;
use vstd::utf8::*;

verus! {

/// How many compression pointers a decoder follows within one name.
pub const DOMAIN_NAME_MAX_RECURSION: usize = 16;

/// A label is shorter than this many octets.
pub const DOMAIN_NAME_MAX_LABEL_LENGTH: usize = 64;

/// The text of a name before an append and the label to append are
/// together shorter than this many octets.
pub const DOMAIN_NAME_MAX_LENGTH: usize = 256;

/// Why a label cannot be appended to a name.
#[derive(Debug, Clone, Copy, PartialEq, Eq, Structural)]
pub enum DomainNameError {
    /// The label has this many octets, which is not below
    /// [`DOMAIN_NAME_MAX_LABEL_LENGTH`].
    LabelLength(usize),
    /// The name's text and the label have this many octets together, which
    /// is not below [`DOMAIN_NAME_MAX_LENGTH`].
    DomainNameLength(usize),
    /// The label contains the separator `.`.
    LabelDot,
}

/// The text of a name, or why it could not be built.
pub type TextResult = Result<Seq<u8>, DomainNameError>;

/// What appending `label` to the name with text `text` gives: the new text,
/// or the first check that fails, in the order label length, name length,
/// separator in the label. The name length is taken before the append, so
/// the separator that closes the new label is not counted.
pub open spec fn append_result(text: Seq<u8>, label: Seq<u8>) -> TextResult {
    if DOMAIN_NAME_MAX_LABEL_LENGTH <= label.len() {
        Err(DomainNameError::LabelLength(label.len() as usize))
    } else if DOMAIN_NAME_MAX_LENGTH <= text.len() + label.len() {
        Err(DomainNameError::DomainNameLength((text.len() + label.len()) as usize))
    } else if label.contains(DOT) {
        Err(DomainNameError::LabelDot)
    } else {
        Ok(text_with_label(text, label))
    }
}

/// What appending `labels` one after the other gives, starting from the name
/// with text `text`: the text after the last of them, or the error of the
/// first that cannot be appended.
pub open spec fn append_all(text: Seq<u8>, labels: Seq<Seq<u8>>) -> TextResult
    decreases labels.len(),
{
    if labels.len() == 0 {
        Ok(text)
    } else {
        match append_all(text, labels.drop_last()) {
            Ok(before) => append_result(before, labels.last()),
            Err(e) => Err(e),
        }
    }
}

/// `text` without its final separator, if it ends in one.
pub open spec fn strip_dot(text: Seq<u8>) -> Seq<u8> {
    if text.len() > 0 && text.last() == DOT {
        text.drop_last()
    } else {
        text
    }
}

/// The name that `text` is read as: one trailing separator is dropped, the
/// rest is split at its separators, and the pieces are appended to the root
/// in order.
pub open spec fn parse_result(text: Seq<u8>) -> TextResult {
    append_all(root_text(), split_dots(strip_dot(text)))
}

/// Whether `text` is the text of a name: it ends in a separator, holds at
/// most [`DOMAIN_NAME_MAX_LENGTH`] octets, starts with a separator only if it
/// is the root's, and each of its labels is UTF-8 text of fewer than
/// [`DOMAIN_NAME_MAX_LABEL_LENGTH`] octets. Without its final separator it is
/// shorter than [`DOMAIN_NAME_MAX_LENGTH`].
pub open spec fn is_name_text(text: Seq<u8>) -> bool {
    &&& 1 <= text.len() <= DOMAIN_NAME_MAX_LENGTH
    &&& text.last() == DOT
    &&& text.len() > 1 ==> text[0] != DOT
    &&& forall|k: int|
        0 <= k < labels_of(text).len() ==> {
            &&& (#[trigger] labels_of(text)[k]).len() < DOMAIN_NAME_MAX_LABEL_LENGTH
            &&& valid_utf8(labels_of(text)[k])
        }
}

/// A name is the text of its labels, and none of its labels holds a
/// separator.
pub proof fn lemma_name_labels(text: Seq<u8>)
    requires
        is_name_text(text),
    ensures
        text_of(labels_of(text)) == text,
        forall|k: int|
            0 <= k < labels_of(text).len() ==> !(#[trigger] labels_of(text)[k]).contains(DOT),
{
    lemma_text_of_labels(text);
    if text != root_text() {
        lemma_split_pieces_dot_free(text.drop_last());
    }
}

/// A text label that can be appended to a name gives a name.
pub proof fn lemma_append_keeps_name_text(text: Seq<u8>, label: Seq<u8>)
    requires
        is_name_text(text),
        valid_utf8(label),
        append_result(text, label) is Ok,
    ensures
        is_name_text(text_with_label(text, label)),
{
    let new_text = text_with_label(text, label);
    lemma_labels_with_label(text, label);
    if text == root_text() {
        if label.len() > 0 {
            assert(label[0] != DOT);
            assert(new_text[0] == label[0]);
        }
    } else {
        assert(text.len() > 1) by {
            if text.len() == 1 {
                assert(text =~= root_text());
            }
        }
        assert(new_text[0] == text[0]);
    }
    assert(new_text.last() == DOT);
    let labels = labels_of(new_text);
    assert forall|k: int| 0 <= k < labels.len() implies (#[trigger] labels[k]).len()
        < DOMAIN_NAME_MAX_LABEL_LENGTH && valid_utf8(labels[k]) by {
        if k < labels_of(text).len() {
            assert(labels[k] == labels_of(text)[k]);
        }
    }
}

/// Once a label cannot be appended, the labels behind it are not looked at.
pub proof fn lemma_append_all_stops(text: Seq<u8>, labels: Seq<Seq<u8>>, more: Seq<Seq<u8>>)
    requires
        append_all(text, labels) is Err,
    ensures
        append_all(text, labels + more) == append_all(text, labels),
    decreases more.len(),
{
    if more.len() == 0 {
        assert(labels + more =~= labels);
    } else {
        lemma_append_all_stops(text, labels, more.drop_last());
        assert((labels + more).drop_last() =~= labels + more.drop_last());
    }
}

/// Appending the first `k` labels of a name to the root gives the name that
/// holds them.
proof fn lemma_append_all_labels(labels: Seq<Seq<u8>>, k: int)
    requires
        0 <= k <= labels.len(),
        labels.len() > 0 ==> labels[0].len() > 0,
        forall|i: int|
            0 <= i < labels.len() ==> (#[trigger] labels[i]).len() < DOMAIN_NAME_MAX_LABEL_LENGTH
                && !labels[i].contains(DOT),
        text_of(labels).len() <= DOMAIN_NAME_MAX_LENGTH,
    ensures
        append_all(root_text(), labels.take(k)) == TextResult::Ok(text_of(labels.take(k))),
    decreases k,
{
    if k == 0 {
        assert(labels.take(k) =~= Seq::<Seq<u8>>::empty());
    } else {
        lemma_append_all_labels(labels, k - 1);
        lemma_text_of_next(labels, k - 1);
        lemma_text_of_grows(labels, k - 1);
        lemma_text_of_grows(labels, k);
        assert(labels.take(k).drop_last() =~= labels.take(k - 1));
        assert(labels.take(k).last() == labels[k - 1]);
    }
}

/// The text of a name is read as that name: reading accepts what
/// [`DomainName::to_string`] writes.
pub proof fn lemma_parse_own_text(text: Seq<u8>)
    requires
        is_name_text(text),
    ensures
        parse_result(text) == TextResult::Ok(text),
{
    let body = text.drop_last();
    let pieces = split_dots(body);
    if text == root_text() {
        assert(body =~= Seq::<u8>::empty());
        assert(pieces.drop_last() =~= Seq::<Seq<u8>>::empty());
        assert(append_all(root_text(), pieces.drop_last()) == TextResult::Ok(root_text()));
        assert(pieces.last() =~= Seq::<u8>::empty());
        assert(Seq::<u8>::empty().push(DOT) =~= root_text());
    } else {
        assert(text.len() > 1) by {
            if text.len() == 1 {
                assert(text =~= root_text());
            }
        }
        lemma_name_labels(text);
        assert(pieces[0].len() > 0) by {
            lemma_first_piece(body);
        }
        lemma_append_all_labels(pieces, pieces.len() as int);
        assert(pieces.take(pieces.len() as int) =~= pieces);
    }
}

/// A fully-qualified domain name: a sequence of labels, none for the root.
///
/// Two names are equal when their texts are equal once lower-cased.
#[derive(Debug)]
pub struct DomainName {
    text: String,
}

impl View for DomainName {
    type V = Seq<u8>;

    /// The octets of the name's canonical text: each label followed by a
    /// separator, the lone separator for the root.
    closed spec fn view(&self) -> Seq<u8> {
        encode_utf8(self.text@)
    }
}

impl DomainName {
    /// Every name holds the text of a name.
    #[verifier::type_invariant]
    pub open spec fn well_formed(self) -> bool {
        is_name_text(self@)
    }

    /// Appends a label to the name.
    ///
    /// The label is refused if it has [`DOMAIN_NAME_MAX_LABEL_LENGTH`] octets
    /// or more, if the name's text and the label together have
    /// [`DOMAIN_NAME_MAX_LENGTH`] octets or more, or if it contains a `.`, in
    /// that order. A refused label leaves the name as it was.
    pub fn append_label(&mut self, label: &str) -> (res: Result<(), DomainNameError>)
        ensures
            match res {
                Ok(()) => append_result(old(self)@, label.spec_bytes()) == TextResult::Ok(
                    final(self)@,
                ),
                Err(e) => append_result(old(self)@, label.spec_bytes()) == TextResult::Err(e)
                    && *final(self) == *old(self),
            },
            res == Err::<(), DomainNameError>(DomainNameError::LabelDot) ==> label@.contains('.'),
            res is Ok ==> !label@.contains('.'),
            is_name_text(final(self)@),
    {
        proof {
            use_type_invariant(&*self);
            lemma_dot_in_text(label@);
        }
        let label_bytes = label.as_bytes();
        let label_length: usize = label_bytes.len();
        if DOMAIN_NAME_MAX_LABEL_LENGTH <= label_length {
            return Err(DomainNameError::LabelLength(label_length));
        }
        let text_length: usize = self.text.as_str().as_bytes().len();
        let domain_name_length: usize = text_length + label_length;
        if DOMAIN_NAME_MAX_LENGTH <= domain_name_length {
            return Err(DomainNameError::DomainNameLength(domain_name_length));
        }
        if first_dot(label_bytes) < label_length {
            return Err(DomainNameError::LabelDot);
        }
        let mut piece = label.to_owned();
        piece.append(".");
        proof {
            lemma_dot_text();
            lemma_encode_utf8_concat(label@, "."@);
            lemma_encode_utf8_concat(self.text@, piece@);
            assert(encode_utf8(piece@) =~= label.spec_bytes().push(DOT));
            encode_utf8_valid_utf8(label@);
            lemma_append_keeps_name_text(self@, label.spec_bytes());
        }
        if text_length == 1 {
            assert(self@ =~= root_text());
            self.text = piece;
        } else {
            let mut text = self.text.clone();
            text.append(piece.as_str());
            self.text = text;
        }
        Ok(())
    }

    /// Reads a name from its text, with or without the final `.`: the text
    /// is split at each `.`, and the pieces are appended to the root in
    /// order, up to the first that is refused.
    pub fn parse(string: &str) -> (res: Result<DomainName, DomainNameError>)
        ensures
            match res {
                Ok(name) => parse_result(string.spec_bytes()) == TextResult::Ok(name@)
                    && is_name_text(name@),
                Err(e) => parse_result(string.spec_bytes()) == TextResult::Err(e),
            },
    {
        let bytes = string.as_bytes();
        let length: usize = bytes.len();
        let mut rest: &str = string;
        if length > 0 && bytes[length - 1] == DOT {
            proof {
                encode_utf8_valid_utf8(string@);
                lemma_char_boundary_at_ascii(bytes@, length - 1);
            }
            rest = string.split_at(length - 1).0;
        }
        let ghost body = strip_dot(string.spec_bytes());
        let ghost done = Seq::<Seq<u8>>::empty();
        let mut name = DomainName::default();
        assert(rest.spec_bytes() =~= body);
        assert(done + split_dots(rest.spec_bytes()) =~= split_dots(body));
        loop
            invariant
                body == strip_dot(string.spec_bytes()),
                split_dots(body) == done + split_dots(rest.spec_bytes()),
                append_all(root_text(), done) == TextResult::Ok(name@),
            decreases rest.spec_bytes().len(),
        {
            let rest_bytes = rest.as_bytes();
            let cut: usize = first_dot(rest_bytes);
            proof {
                encode_utf8_valid_utf8(rest@);
                if cut < rest_bytes.len() {
                    lemma_char_boundary_at_ascii(rest_bytes@, cut as int);
                } else {
                    is_char_boundary_start_end_of_seq(rest_bytes@);
                }
            }
            let (label, tail) = rest.split_at(cut);
            let ghost pieces = done.push(label.spec_bytes());
            let appended = name.append_label(label);
            proof {
                assert(pieces.drop_last() =~= done);
                assert(!label.spec_bytes().contains(DOT)) by {
                    assert forall|k: int| 0 <= k < label.spec_bytes().len() implies label.spec_bytes()[k]
                        != DOT by {
                        assert(label.spec_bytes()[k] == rest_bytes@[k]);
                    }
                }
                lemma_split_dot_free(label.spec_bytes());
            }
            if cut == rest_bytes.len() {
                proof {
                    assert(label.spec_bytes() =~= rest.spec_bytes());
                    assert(done + seq![label.spec_bytes()] =~= pieces);
                }
                return match appended {
                    Ok(()) => Ok(name),
                    Err(e) => Err(e),
                };
            }
            proof {
                encode_utf8_valid_utf8(tail@);
                lemma_char_boundary_behind_ascii(tail.spec_bytes());
            }
            let next = tail.split_at(1).1;
            proof {
                assert(rest.spec_bytes() =~= label.spec_bytes().push(DOT) + next.spec_bytes());
                lemma_split_join(label.spec_bytes(), next.spec_bytes());
                assert(split_dots(body) =~= pieces + split_dots(next.spec_bytes()));
            }
            match appended {
                Ok(()) => {},
                Err(e) => {
                    proof {
                        lemma_append_all_stops(root_text(), pieces, split_dots(next.spec_bytes()));
                    }
                    return Err(e);
                },
            }
            proof {
                done = pieces;
            }
            rest = next;
        }
    }

    /// The name's canonical text: each label followed by a `.`, and `.`
    /// alone for the root.
    pub fn to_string(&self) -> (text: String)
        ensures
            text@ == decode_utf8(self@),
            encode_utf8(text@) == self@,
    {
        proof {
            encode_utf8_decode_utf8(self.text@);
        }
        self.text.clone()
    }

    /// Whether this is the root name, which has no labels.
    pub fn is_root(&self) -> (root: bool)
        ensures
            root == (self@ == root_text()),
    {
        proof {
            use_type_invariant(self);
        }
        let root = self.text.as_str().as_bytes().len() == 1;
        proof {
            if root {
                assert(self@ =~= root_text());
            }
        }
        root
    }

    /// The name's text in lower case, by which names are compared and
    /// hashed.
    fn lowercased(&self) -> (folded: String)
        ensures
            folded@ == lowercase(decode_utf8(self@)),
    {
        proof {
            encode_utf8_decode_utf8(self.text@);
        }
        self.text.as_str().to_lowercase()
    }

    /// The octets of the name's canonical text.
    pub fn as_bytes(&self) -> (bytes: &[u8])
        ensures
            bytes@ == self@,
            is_name_text(bytes@),
    {
        proof {
            use_type_invariant(self);
        }
        self.text.as_str().as_bytes()
    }
}

impl Clone for DomainName {
    fn clone(&self) -> (name: Self)
        ensures
            name@ == self@,
            is_name_text(name@),
    {
        proof {
            use_type_invariant(self);
        }
        DomainName { text: self.text.clone() }
    }
}

impl Default for DomainName {
    /// The root name.
    fn default() -> (name: Self)
        ensures
            name@ == root_text(),
            is_name_text(name@),
    {
        proof {
            lemma_dot_text();
        }
        DomainName { text: ".".to_owned() }
    }
}

impl PartialEq for DomainName {
    /// Whether the two names have the same text once lower-cased.
    fn eq(&self, other: &Self) -> (equal: bool) {
        let a = self.lowercased();
        let b = other.lowercased();
        a == b
    }
}

impl PartialEqSpecImpl for DomainName {
    open spec fn obeys_eq_spec() -> bool {
        true
    }

    open spec fn eq_spec(&self, other: &Self) -> bool {
        lowercase(decode_utf8(self@)) == lowercase(decode_utf8(other@))
    }
}

impl Eq for DomainName {

}

impl<'a> PartialEq<&'a str> for DomainName {
    /// Whether the name's text and `other` are the same once lower-cased.
    fn eq(&self, other: &&'a str) -> (equal: bool) {
        let a = self.lowercased();
        let b = other.to_lowercase();
        a == b
    }
}

impl<'a> PartialEqSpecImpl<&'a str> for DomainName {
    open spec fn obeys_eq_spec() -> bool {
        true
    }

    open spec fn eq_spec(&self, other: &&'a str) -> bool {
        lowercase(decode_utf8(self@)) == lowercase(other@)
    }
}

impl core::hash::Hash for DomainName {
    /// Feeds the lower-cased text to the hasher, so that equal names are
    /// hashed alike.
    fn hash<H: core::hash::Hasher>(&self, state: &mut H) {
        self.lowercased().hash(state)
    }
}

impl<'a> TryFrom<&'a str> for DomainName {
    type Error = DomainNameError;

    /// Reads a name from its text, as [`DomainName::parse`] does.
    fn try_from(string: &'a str) -> (res: Result<Self, DomainNameError>)
        ensures
            match res {
                Ok(name) => parse_result(string.spec_bytes()) == TextResult::Ok(name@)
                    && is_name_text(name@),
                Err(e) => parse_result(string.spec_bytes()) == TextResult::Err(e),
            },
    {
        DomainName::parse(string)
    }
}

/// The conversion is stated by the contract of `try_from` itself, over the
/// texts: among the names with one text, none is singled out here.
impl<'a> TryFromSpecImpl<&'a str> for DomainName {
    open spec fn obeys_try_from_spec() -> bool {
        false
    }

    open spec fn try_from_spec(v: &'a str) -> Result<Self, DomainNameError> {
        arbitrary()
    }
}

impl From<DomainName> for String {
    /// The name's canonical text.
    fn from(name: DomainName) -> (text: String)
        ensures
            encode_utf8(text@) == name@,
    {
        name.text
    }
}

impl FromSpecImpl<DomainName> for String {
    open spec fn obeys_from_spec() -> bool {
        true
    }

    closed spec fn from_spec(v: DomainName) -> String {
        v.text
    }
}

impl AsRef<str> for DomainName {
    /// The name's canonical text.
    fn as_ref(&self) -> (text: &str)
        ensures
            text.spec_bytes() == self@,
            text@ == decode_utf8(self@),
    {
        proof {
            encode_utf8_decode_utf8(self.text@);
        }
        self.text.as_str()
    }
}

} // verus!
