//! Labels: the pieces of a text between its separators, and the text that a
//! sequence of labels is written as.

use crate::text::DOT;
use vstd::prelude::*;

verus! {

/// The pieces of `s` that its separators delimit, in order. There is one
/// piece more than there are separators, and a piece may be empty.
pub open spec fn split_dots(s: Seq<u8>) -> Seq<Seq<u8>>
    decreases s.len(),
{
    if s.len() == 0 {
        seq![Seq::empty()]
    } else {
        let before = split_dots(s.drop_last());
        if s.last() == DOT {
            before.push(Seq::empty())
        } else {
            before.update(before.len() - 1, before.last().push(s.last()))
        }
    }
}

/// The text of the root name: the separator alone.
pub open spec fn root_text() -> Seq<u8> {
    seq![DOT]
}

/// The text of a name once `label` stands behind its labels. A label
/// appended to the root replaces the root's lone separator.
pub open spec fn text_with_label(text: Seq<u8>, label: Seq<u8>) -> Seq<u8> {
    if text == root_text() {
        label.push(DOT)
    } else {
        text + label.push(DOT)
    }
}

/// The labels of a name, read off its text: none for the root, else the
/// pieces of the text before its final separator.
pub open spec fn labels_of(text: Seq<u8>) -> Seq<Seq<u8>> {
    if text == root_text() {
        Seq::empty()
    } else {
        split_dots(text.drop_last())
    }
}

/// The text of the name that holds `labels` in order.
pub open spec fn text_of(labels: Seq<Seq<u8>>) -> Seq<u8>
    decreases labels.len(),
{
    if labels.len() == 0 {
        root_text()
    } else {
        text_with_label(text_of(labels.drop_last()), labels.last())
    }
}

/// A text always splits into at least one piece.
pub proof fn lemma_split_len(s: Seq<u8>)
    ensures
        split_dots(s).len() >= 1,
    decreases s.len(),
{
    if s.len() > 0 {
        lemma_split_len(s.drop_last());
    }
}

/// A text without a separator is its own single piece.
pub proof fn lemma_split_dot_free(l: Seq<u8>)
    requires
        !l.contains(DOT),
    ensures
        split_dots(l) == seq![l],
    decreases l.len(),
{
    if l.len() == 0 {
        assert(l =~= Seq::empty());
    } else {
        let init = l.drop_last();
        assert forall|i: int| 0 <= i < init.len() implies init[i] != DOT by {
            assert(l[i] == init[i]);
        }
        lemma_split_dot_free(init);
        assert(l[l.len() - 1] != DOT);
        assert(init.push(l.last()) =~= l);
        assert(seq![init].update(0, l) =~= seq![l]);
    }
}

/// Behind a separator, a text without one is a piece of its own.
pub proof fn lemma_split_append(s: Seq<u8>, l: Seq<u8>)
    requires
        !l.contains(DOT),
    ensures
        split_dots(s.push(DOT) + l) == split_dots(s).push(l),
    decreases l.len(),
{
    let whole = s.push(DOT) + l;
    if l.len() == 0 {
        assert(l =~= Seq::empty());
        assert(whole.drop_last() =~= s);
    } else {
        let init = l.drop_last();
        assert forall|i: int| 0 <= i < init.len() implies init[i] != DOT by {
            assert(l[i] == init[i]);
        }
        lemma_split_append(s, init);
        assert(whole.drop_last() =~= s.push(DOT) + init);
        assert(l[l.len() - 1] != DOT);
        assert(init.push(l.last()) =~= l);
        let pieces = split_dots(s);
        assert(pieces.push(init).update(pieces.len() as int, l) =~= pieces.push(l));
    }
}

/// No piece of a text holds a separator.
pub proof fn lemma_split_pieces_dot_free(s: Seq<u8>)
    ensures
        forall|k: int| 0 <= k < split_dots(s).len() ==> !(#[trigger] split_dots(s)[k]).contains(DOT),
    decreases s.len(),
{
    if s.len() == 0 {
    } else {
        let before = split_dots(s.drop_last());
        lemma_split_pieces_dot_free(s.drop_last());
        lemma_split_len(s.drop_last());
        if s.last() != DOT {
            let grown = before.last().push(s.last());
            assert(!before[before.len() - 1].contains(DOT));
            assert forall|i: int| 0 <= i < grown.len() implies grown[i] != DOT by {
                if i < before.last().len() {
                    assert(before.last()[i] != DOT);
                }
            }
        }
    }
}

/// Appending a label to a name adds it to the name's labels, but for the
/// empty label on the root, which leaves the root.
pub proof fn lemma_labels_with_label(text: Seq<u8>, label: Seq<u8>)
    requires
        text.len() >= 1,
        text.last() == DOT,
        !label.contains(DOT),
    ensures
        labels_of(text_with_label(text, label)) == if text == root_text() && label.len() == 0 {
            Seq::<Seq<u8>>::empty()
        } else {
            labels_of(text).push(label)
        },
{
    let new_text = text_with_label(text, label);
    if text == root_text() {
        if label.len() == 0 {
            assert(new_text =~= root_text());
        } else {
            assert(new_text.len() == label.len() + 1);
            assert(new_text.drop_last() =~= label);
            lemma_split_dot_free(label);
            assert(seq![label] =~= Seq::<Seq<u8>>::empty().push(label));
        }
    } else {
        assert(new_text.len() >= 2);
        assert(new_text.drop_last() =~= text.drop_last().push(DOT) + label);
        lemma_split_append(text.drop_last(), label);
    }
}

/// Writing out the pieces of a text that does not start with a separator
/// gives the text back, closed by a separator.
proof fn lemma_text_of_split(s: Seq<u8>)
    requires
        s.len() > 0 ==> s[0] != DOT,
    ensures
        text_of(split_dots(s)) == s.push(DOT),
    decreases s.len(),
{
    if s.len() == 0 {
        let pieces = split_dots(s);
        assert(pieces.drop_last() =~= Seq::<Seq<u8>>::empty());
        assert(text_of(pieces.drop_last()) == root_text());
        assert(pieces.last() =~= Seq::<u8>::empty());
        assert(Seq::<u8>::empty().push(DOT) =~= s.push(DOT));
    } else {
        let init = s.drop_last();
        let c = s.last();
        let pieces = split_dots(init);
        lemma_split_len(init);
        if init.len() > 0 {
            assert(init[0] == s[0]);
        }
        lemma_text_of_split(init);
        let head = text_of(pieces.drop_last());
        let l = pieces.last();
        assert(text_of(pieces) == text_with_label(head, l));
        assert(init.push(c) =~= s);
        if c == DOT {
            assert(init.len() > 0);
            let grown = pieces.push(Seq::empty());
            assert(grown.drop_last() =~= pieces);
            assert(init.push(DOT) != root_text()) by {
                assert(init.push(DOT).len() >= 2);
            }
            assert(text_of(grown) =~= init.push(DOT) + Seq::<u8>::empty().push(DOT));
            assert(text_of(grown) =~= s.push(DOT));
        } else {
            let grown = pieces.update(pieces.len() - 1, l.push(c));
            assert(grown.drop_last() =~= pieces.drop_last());
            assert(grown.last() == l.push(c));
            assert(text_of(grown) == text_with_label(head, l.push(c)));
            if head == root_text() {
                assert(l.push(DOT).drop_last() =~= l);
                assert(init.push(DOT).drop_last() =~= init);
                assert(l == init);
                assert(text_of(grown) =~= s.push(DOT));
            } else {
                assert((head + l.push(DOT)).drop_last() =~= head + l);
                assert(init.push(DOT).drop_last() =~= init);
                assert(head + l == init);
                assert(head + l.push(c).push(DOT) =~= (head + l).push(c).push(DOT));
                assert(text_of(grown) =~= s.push(DOT));
            }
        }
    }
}

/// A text that ends in a separator and does not start with one, unless it is
/// the root's, is the text of its own labels.
pub proof fn lemma_text_of_labels(text: Seq<u8>)
    requires
        text.len() >= 1,
        text.last() == DOT,
        text.len() > 1 ==> text[0] != DOT,
    ensures
        text_of(labels_of(text)) == text,
{
    if text == root_text() {
    } else {
        assert(text.len() > 1) by {
            if text.len() == 1 {
                assert(text =~= root_text());
            }
        }
        let body = text.drop_last();
        assert(body[0] == text[0]);
        lemma_text_of_split(body);
        assert(body.push(DOT) =~= text);
    }
}

/// A text that does not start with a separator has a first piece that is
/// not empty.
pub proof fn lemma_first_piece(s: Seq<u8>)
    requires
        s.len() > 0,
        s[0] != DOT,
    ensures
        split_dots(s).len() >= 1,
        split_dots(s)[0].len() > 0,
    decreases s.len(),
{
    let init = s.drop_last();
    lemma_split_len(init);
    if init.len() > 0 {
        assert(init[0] == s[0]);
        lemma_first_piece(init);
    } else {
        assert(s.last() == s[0]);
    }
}

/// Splitting at a separator splits the pieces.
pub proof fn lemma_split_join(a: Seq<u8>, b: Seq<u8>)
    ensures
        split_dots(a.push(DOT) + b) == split_dots(a) + split_dots(b),
    decreases b.len(),
{
    let whole = a.push(DOT) + b;
    if b.len() == 0 {
        assert(whole.drop_last() =~= a);
        assert(split_dots(a).push(Seq::empty()) =~= split_dots(a) + split_dots(b));
    } else {
        lemma_split_join(a, b.drop_last());
        lemma_split_len(b.drop_last());
        assert(whole.drop_last() =~= a.push(DOT) + b.drop_last());
        let left = split_dots(a);
        let right = split_dots(b.drop_last());
        if b.last() == DOT {
            assert((left + right).push(Seq::empty()) =~= left + right.push(Seq::empty()));
        } else {
            let grown = right.last().push(b.last());
            assert((left + right).update((left + right).len() - 1, grown) =~= left + right.update(
                right.len() - 1,
                grown,
            ));
        }
    }
}

/// The text of the first `k + 1` labels is the text of the first `k` with
/// the next label appended.
pub proof fn lemma_text_of_next(labels: Seq<Seq<u8>>, k: int)
    requires
        0 <= k < labels.len(),
    ensures
        text_of(labels.take(k + 1)) == text_with_label(text_of(labels.take(k)), labels[k]),
        k == 0 ==> text_of(labels.take(k)) == root_text(),
{
    let next = labels.take(k + 1);
    assert(next.drop_last() =~= labels.take(k));
    assert(next.last() == labels[k]);
    if k == 0 {
        assert(labels.take(k) =~= Seq::<Seq<u8>>::empty());
    }
}

/// Behind a first label that is not empty, the text of a name is never the
/// root's again.
pub proof fn lemma_text_of_some(labels: Seq<Seq<u8>>, k: int)
    requires
        0 < k <= labels.len(),
        labels[0].len() > 0,
    ensures
        text_of(labels.take(k)).len() >= 2,
    decreases k,
{
    lemma_text_of_next(labels, k - 1);
    if k > 1 {
        lemma_text_of_some(labels, k - 1);
    }
}

/// The text of a name whose first label is not empty grows with each label,
/// by the label and the separator behind it.
pub proof fn lemma_text_of_grows(labels: Seq<Seq<u8>>, k: int)
    requires
        0 <= k <= labels.len(),
        labels.len() > 0 ==> labels[0].len() > 0,
    ensures
        text_of(labels.take(k)).len() <= text_of(labels).len(),
        0 < k < labels.len() ==> text_of(labels.take(k + 1)).len() == text_of(
            labels.take(k),
        ).len() + labels[k].len() + 1,
    decreases labels.len() - k,
{
    if k == labels.len() {
        assert(labels.take(k) =~= labels);
    } else {
        lemma_text_of_next(labels, k);
        if k > 0 {
            lemma_text_of_some(labels, k);
        }
        lemma_text_of_grows(labels, k + 1);
    }
}

} // verus!
